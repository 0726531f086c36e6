use bigram_smoothing::data::corpus::Corpus;

fn words(line: &str) -> Vec<String> {
    line.split(' ').map(|w| w.to_string()).collect()
}

fn pair(h: &str, w: &str) -> (String, String) {
    (h.to_string(), w.to_string())
}

#[test]
fn sample_corpus_totals() {
    let c = Corpus::new();
    assert_eq!(c.vocab_size(), 11);
    assert_eq!(c.get_total_unigram_tokens(), 23);
    assert_eq!(c.get_total_existing_bigrams(), 19);
    assert_eq!(c.get_total_distinct_bigram_types(), 14);
    assert_eq!(c.get_legal_unseen_bigrams(), 121 - 14);
}

#[test]
fn sample_corpus_unigram_counts() {
    let c = Corpus::new();
    assert_eq!(c.get_unigram_start_count("the"), 8);
    assert_eq!(c.get_unigram_start_count("cat"), 2);
    assert_eq!(c.get_unigram_start_count("dog"), 3);
    assert_eq!(c.get_unigram_start_count("mouse"), 1);
    assert_eq!(c.get_unigram_start_count("bird"), 0);
    assert_eq!(c.get_unigram_start_count(""), 0);
}

#[test]
fn sample_corpus_bigram_counts() {
    let c = Corpus::new();
    assert_eq!(c.get_bigram_count(&pair("the", "cat")), 2);
    assert_eq!(c.get_bigram_count(&pair("the", "dog")), 3);
    assert_eq!(c.get_bigram_count(&pair("cat", "sat")), 1);
    assert_eq!(c.get_bigram_count(&pair("dog", "mat")), 0);
    assert_eq!(c.get_bigram_count(&pair("cat", "the")), 0);
    assert_eq!(c.get_bigram_count(&pair("bird", "flew")), 0);
}

#[test]
fn bigrams_do_not_cross_sentences() {
    let c = Corpus::new();
    // "mat" ends the first sentence and "the" begins the second
    assert_eq!(c.get_bigram_count(&pair("mat", "the")), 0);
    assert_eq!(c.get_context_count("mat"), 0);
    assert_eq!(c.get_context_count("mouse"), 0);
}

#[test]
fn sample_corpus_context_aggregates() {
    let c = Corpus::new();
    assert_eq!(c.get_context_count("the"), 8);
    assert_eq!(c.get_num_unique_continuations("the"), 5);
    assert_eq!(c.get_context_count("dog"), 2);
    assert_eq!(c.get_num_unique_continuations("dog"), 2);
    assert_eq!(c.get_context_count("bird"), 0);
    assert_eq!(c.get_num_unique_continuations("bird"), 0);
    assert_eq!(c.get_unique_predecessors_of_w2("the"), 3);
    assert_eq!(c.get_unique_predecessors_of_w2("ran"), 1);
    assert_eq!(c.get_unique_predecessors_of_w2("sat"), 2);
    assert_eq!(c.get_unique_predecessors_of_w2("bird"), 0);
}

#[test]
fn sample_corpus_frequency_table() {
    let c = Corpus::new();
    let t = c.repetitions();
    assert_eq!(t.len(), 3);
    assert_eq!(t.get(&1), Some(&10));
    assert_eq!(t.get(&2), Some(&3));
    assert_eq!(t.get(&3), Some(&1));
    assert_eq!(t.get(&0), None);
    // the table accounts for every bigram occurrence and every bigram type
    let occurrences: usize = t.iter().map(|(r, n)| r * n).sum();
    let types: usize = t.values().sum();
    assert_eq!(occurrences, c.get_total_existing_bigrams());
    assert_eq!(types, c.get_total_distinct_bigram_types());
}

#[test]
fn sample_corpus_test_bigrams() {
    let c = Corpus::new();
    let expected = vec![
        pair("the", "cat"),
        pair("cat", "sat"),
        pair("dog", "sat"),
        pair("the", "dog"),
        pair("cat", "dog"),
        pair("dog", "mat"),
        pair("mat", "the"),
        pair("mouse", "ran"),
        pair("bird", "flew"),
    ];
    assert_eq!(c.test_bigrams(), &expected);
}

#[test]
fn sample_test_bigrams_cover_the_three_regimes() {
    let c = Corpus::new();
    let known = |w: &str| c.get_unigram_start_count(w) > 0;
    let pairs = c.test_bigrams();
    // bigrams that the corpus holds
    assert!(pairs.iter().any(|p| c.get_bigram_count(p) > 0));
    // bigrams that it does not hold, of words that it holds
    assert!(pairs.iter().any(|p| c.get_bigram_count(p) == 0 && known(&p.0) && known(&p.1)));
    // a bigram with a word that it does not hold
    assert!(pairs.iter().any(|p| !known(&p.0) || !known(&p.1)));
    assert_eq!(c.get_bigram_count(&pair("the", "cat")), 2);
    assert_eq!(c.get_bigram_count(&pair("dog", "mat")), 0);
    assert!(known("dog") && known("mat"));
    assert!(!known("bird") && !known("flew"));
}

#[test]
fn sample_corpus_is_the_model_of_its_sentences() {
    let sentences = vec![
        words("the cat sat on the mat"),
        words("the dog sat on the log"),
        words("the cat chased the dog"),
        words("the dog ran after the mouse"),
    ];
    let built = Corpus::from_sentences(&sentences, vec![]).unwrap();
    let sample = Corpus::new();
    for w in ["the", "cat", "sat", "on", "mat", "dog", "log", "chased", "ran", "after", "mouse"] {
        assert_eq!(built.get_unigram_start_count(w), sample.get_unigram_start_count(w));
        assert_eq!(built.get_context_count(w), sample.get_context_count(w));
    }
    assert_eq!(built.vocab_size(), sample.vocab_size());
    assert_eq!(built.repetitions(), sample.repetitions());
    assert_eq!(built.test_bigrams().len(), 0);
}

#[test]
fn empty_corpus_counts_nothing() {
    let c = Corpus::from_sentences(&vec![], vec![]).unwrap();
    assert_eq!(c.vocab_size(), 0);
    assert_eq!(c.get_total_unigram_tokens(), 0);
    assert_eq!(c.get_total_existing_bigrams(), 0);
    assert_eq!(c.get_total_distinct_bigram_types(), 0);
    assert_eq!(c.get_legal_unseen_bigrams(), 0);
    assert_eq!(c.get_unigram_start_count("the"), 0);
    assert_eq!(c.get_bigram_count(&pair("the", "cat")), 0);
    assert!(c.repetitions().is_empty());
}

#[test]
fn one_word_sentences_have_no_bigrams() {
    let c = Corpus::from_sentences(&vec![words("a"), vec![], words("a"), words("b")], vec![]).unwrap();
    assert_eq!(c.vocab_size(), 2);
    assert_eq!(c.get_total_unigram_tokens(), 3);
    assert_eq!(c.get_unigram_start_count("a"), 2);
    assert_eq!(c.get_total_existing_bigrams(), 0);
    assert_eq!(c.get_legal_unseen_bigrams(), 4);
}

#[test]
fn repeated_word_is_its_own_context() {
    let c = Corpus::from_sentences(&vec![words("a a a b")], vec![pair("a", "a")]).unwrap();
    assert_eq!(c.get_bigram_count(&pair("a", "a")), 2);
    assert_eq!(c.get_bigram_count(&pair("a", "b")), 1);
    assert_eq!(c.get_context_count("a"), 3);
    assert_eq!(c.get_num_unique_continuations("a"), 2);
    assert_eq!(c.get_unique_predecessors_of_w2("a"), 1);
    assert_eq!(c.get_unique_predecessors_of_w2("b"), 1);
    assert_eq!(c.repetitions().get(&1), Some(&1));
    assert_eq!(c.repetitions().get(&2), Some(&1));
    assert_eq!(c.test_bigrams(), &vec![pair("a", "a")]);
}

#[test]
fn continuation_counts_add_up_to_the_bigram_types() {
    let c = Corpus::new();
    let vocabulary =
        ["the", "cat", "sat", "on", "mat", "dog", "log", "chased", "ran", "after", "mouse"];
    let total: usize = vocabulary.iter().map(|w| c.get_unique_predecessors_of_w2(w)).sum();
    assert_eq!(total, c.get_total_distinct_bigram_types());
    let mass: f64 = vocabulary
        .iter()
        .map(|w| c.get_unique_predecessors_of_w2(w) as f64 / total as f64)
        .sum();
    assert!((mass - 1.0).abs() < 1e-9);
}

#[test]
fn context_counts_stay_within_the_counts_of_their_words() {
    let c = Corpus::new();
    let vocabulary =
        ["the", "cat", "sat", "on", "mat", "dog", "log", "chased", "ran", "after", "mouse"];
    let mut total = 0;
    for w in vocabulary {
        assert!(c.get_context_count(w) <= c.get_unigram_start_count(w), "{}", w);
        total += c.get_context_count(w);
    }
    // every bigram occurrence starts with one word of the vocabulary
    assert_eq!(total, c.get_total_existing_bigrams());
    // a word that ends a sentence starts one bigram fewer than it occurs
    assert_eq!(c.get_unigram_start_count("dog"), 3);
    assert_eq!(c.get_context_count("dog"), 2);
}
