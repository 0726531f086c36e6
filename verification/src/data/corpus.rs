use crate::bag::{
    enumerates, lemma_enumerated_filter_len, lemma_enumerated_len, lemma_filter_bounds,
    lemma_tally_enumerated, lemma_tally_listed, lemma_tally_step, listed, occurs, tally,
};
use crate::data::lemmas::{lemma_bigram_occurs, lemma_distinct_bigrams_bound, lemma_word_occurs};
use crate::data::model::{
    adjacent_pairs, context_count, corpus_bigrams, corpus_unigrams, ends_with, frequency_of,
    frequency_table, legal_unseen, starts_with, unique_continuations, unique_predecessors, Bigram,
    Word,
};
use std::collections::HashMap;
use vstd::multiset::Multiset;
use vstd::prelude::*;
use vstd::seq_lib::{to_multiset_build, to_multiset_len};

verus! {

/// One row of the unigram table: a word and how often it occurs.
struct WordCount {
    word: String,
    count: usize,
}

/// One row of the bigram table: a pair of words and how often it occurs.
struct PairCount {
    context: String,
    word: String,
    count: usize,
}

/// The words of a unigram table, row by row.
spec fn word_keys(table: Seq<WordCount>) -> Seq<Word> {
    Seq::new(table.len(), |i: int| table[i].word@)
}

/// The bigrams of a bigram table, row by row.
spec fn pair_keys(table: Seq<PairCount>) -> Seq<Bigram> {
    Seq::new(table.len(), |i: int| (table[i].context@, table[i].word@))
}

/// The table holds one row for each distinct word of `bag`, with its count.
spec fn words_match(table: Seq<WordCount>, bag: Multiset<Word>) -> bool {
    &&& enumerates(word_keys(table), bag)
    &&& forall|i: int| 0 <= i < table.len() ==> (#[trigger] table[i]).count == bag.count(table[i].word@)
}

/// The table holds one row for each distinct bigram of `bag`, with its count.
spec fn pairs_match(table: Seq<PairCount>, bag: Multiset<Bigram>) -> bool {
    &&& enumerates(pair_keys(table), bag)
    &&& forall|i: int|
        0 <= i < table.len() ==> (#[trigger] table[i]).count == bag.count(
            (table[i].context@, table[i].word@),
        )
}

/// How many adjacent pairs begin within the first `i` tokens of a sentence of `n` tokens.
spec fn pairs_begun(i: int, n: int) -> int {
    if i < n {
        i
    } else if n == 0 {
        0
    } else {
        n - 1
    }
}

/// The tokens of a prefix of the corpus are among the tokens of the corpus.
proof fn lemma_prefix_unigrams(sentences: Seq<Seq<Word>>, k: int)
    requires
        0 <= k <= sentences.len(),
    ensures
        corpus_unigrams(sentences.take(k)).len() <= corpus_unigrams(sentences).len(),
    decreases sentences.len(),
{
    broadcast use vstd::multiset::group_multiset_axioms;

    if k == sentences.len() {
        assert(sentences.take(k) =~= sentences);
    } else {
        assert(sentences.take(k) =~= sentences.drop_last().take(k));
        lemma_prefix_unigrams(sentences.drop_last(), k);
    }
}

/// Records one more occurrence of `word` in the unigram table.
fn count_word(table: &mut Vec<WordCount>, word: &String, Ghost(bag): Ghost<Multiset<Word>>)
    requires
        words_match(old(table)@, bag),
        bag.len() < usize::MAX,
    ensures
        words_match(final(table)@, bag.insert(word@)),
{
    broadcast use vstd::multiset::group_multiset_axioms;

    let ghost before = table@;
    let mut i: usize = 0;
    while i < table.len()
        invariant
            i <= table.len(),
            table@ == before,
            words_match(before, bag),
            bag.len() < usize::MAX,
            forall|j: int| 0 <= j < i ==> before[j].word@ != word@,
        decreases table.len() - i,
    {
        if table[i].word == *word {
            assert(before[i as int].count == bag.count(word@));
            table[i].count = table[i].count + 1;
            proof {
                let after = table@;
                let keys = word_keys(before);
                assert(word_keys(after) =~= keys);
                assert(keys[i as int] == word@);
                assert(keys.contains(word@));
                assert forall|j: int| 0 <= j < after.len() implies (#[trigger] after[j]).count
                    == bag.insert(word@).count(after[j].word@) by {
                    assert(before[j].count == bag.count(before[j].word@));
                    if j != i {
                        assert(keys[j] != keys[i as int]);
                    }
                }
            }
            return ;
        }
        i += 1;
    }
    table.push(WordCount { word: word.clone(), count: 1 });
    proof {
        let after = table@;
        assert(word_keys(after) =~= word_keys(before).push(word@));
        assert(!word_keys(before).contains(word@));
        assert forall|j: int| 0 <= j < after.len() implies (#[trigger] after[j]).count
            == bag.insert(word@).count(after[j].word@) by {
            if j < before.len() {
                assert(before[j].count == bag.count(before[j].word@));
                assert(word_keys(before)[j] != word@);
            }
        }
        assert forall|k: Word|
            word_keys(after).contains(k) <==> bag.insert(word@).count(k) > 0 by {
            if word_keys(before).contains(k) {
                let j = choose|j: int| 0 <= j < before.len() && word_keys(before)[j] == k;
                assert(word_keys(after)[j] == k);
            }
            if word_keys(after).contains(k) && k != word@ {
                let j = choose|j: int| 0 <= j < after.len() && word_keys(after)[j] == k;
                assert(word_keys(before)[j] == k);
            }
            assert(word_keys(after)[after.len() - 1] == word@);
        }
    }
}

/// Records one more occurrence of the pair `(context, word)` in the bigram table.
fn count_pair(
    table: &mut Vec<PairCount>,
    context: &String,
    word: &String,
    Ghost(bag): Ghost<Multiset<Bigram>>,
)
    requires
        pairs_match(old(table)@, bag),
        bag.len() < usize::MAX,
    ensures
        pairs_match(final(table)@, bag.insert((context@, word@))),
{
    broadcast use vstd::multiset::group_multiset_axioms;

    let ghost before = table@;
    let ghost key = (context@, word@);
    let mut i: usize = 0;
    while i < table.len()
        invariant
            i <= table.len(),
            table@ == before,
            key == (context@, word@),
            pairs_match(before, bag),
            bag.len() < usize::MAX,
            forall|j: int| 0 <= j < i ==> pair_keys(before)[j] != key,
        decreases table.len() - i,
    {
        if table[i].context == *context && table[i].word == *word {
            assert(before[i as int].count == bag.count(key));
            table[i].count = table[i].count + 1;
            proof {
                let after = table@;
                let keys = pair_keys(before);
                assert(pair_keys(after) =~= keys);
                assert(keys[i as int] == key);
                assert(keys.contains(key));
                assert forall|j: int| 0 <= j < after.len() implies (#[trigger] after[j]).count
                    == bag.insert(key).count((after[j].context@, after[j].word@)) by {
                    assert(before[j].count == bag.count((before[j].context@, before[j].word@)));
                    if j != i {
                        assert(keys[j] != keys[i as int]);
                    }
                }
            }
            return ;
        }
        assert(pair_keys(before)[i as int] != key);
        i += 1;
    }
    table.push(PairCount { context: context.clone(), word: word.clone(), count: 1 });
    proof {
        let after = table@;
        assert(pair_keys(after) =~= pair_keys(before).push(key));
        assert(!pair_keys(before).contains(key));
        assert forall|j: int| 0 <= j < after.len() implies (#[trigger] after[j]).count
            == bag.insert(key).count((after[j].context@, after[j].word@)) by {
            if j < before.len() {
                assert(before[j].count == bag.count((before[j].context@, before[j].word@)));
                assert(pair_keys(before)[j] != key);
            }
        }
        assert forall|k: Bigram| pair_keys(after).contains(k) <==> bag.insert(key).count(k) > 0 by {
            if pair_keys(before).contains(k) {
                let j = choose|j: int| 0 <= j < before.len() && pair_keys(before)[j] == k;
                assert(pair_keys(after)[j] == k);
            }
            if pair_keys(after).contains(k) && k != key {
                let j = choose|j: int| 0 <= j < after.len() && pair_keys(after)[j] == k;
                assert(pair_keys(before)[j] == k);
            }
            assert(pair_keys(after)[after.len() - 1] == key);
        }
    }
}

/// How many of the listed bigrams occur exactly `r` times in `bag`.
spec fn rows_with(keys: Seq<Bigram>, bag: Multiset<Bigram>, r: nat) -> nat {
    keys.filter(occurs(bag, r)).len()
}

/// Inverts the bigram table: for each count, how many distinct bigrams have it.
fn tabulate(pairs: &Vec<PairCount>, Ghost(bag): Ghost<Multiset<Bigram>>) -> (table: HashMap<
    usize,
    usize,
>)
    requires
        pairs_match(pairs@, bag),
    ensures
        table@ == frequency_table(bag),
{
    broadcast use vstd::std_specs::hash::group_hash_axioms;

    let ghost keys = pair_keys(pairs@);
    let mut table: HashMap<usize, usize> = HashMap::new();
    let mut j: usize = 0;
    proof {
        reveal(Seq::filter);
        assert(keys.take(0) =~= Seq::empty());
    }
    while j < pairs.len()
        invariant
            j <= pairs.len(),
            pairs_match(pairs@, bag),
            keys == pair_keys(pairs@),
            forall|r: usize| #[trigger]
                table@.contains_key(r) <==> rows_with(keys.take(j as int), bag, r as nat) > 0,
            forall|r: usize|
                table@.contains_key(r) ==> #[trigger] table@[r] == rows_with(
                    keys.take(j as int),
                    bag,
                    r as nat,
                ),
        decreases pairs.len() - j,
    {
        let r = pairs[j].count;
        let seen = match table.get(&r) {
            Some(v) => *v,
            None => 0,
        };
        proof {
            keys.take(j as int).lemma_filter_len(occurs(bag, r as nat));
            assert(keys[j as int] == (pairs[j as int].context@, pairs[j as int].word@));
            assert(keys.take(j + 1) =~= keys.take(j as int).push(keys[j as int]));
            assert forall|q: usize|
                rows_with(keys.take(j + 1), bag, q as nat) == rows_with(
                    keys.take(j as int),
                    bag,
                    q as nat,
                ) + if q == r {
                    1nat
                } else {
                    0nat
                } by {
                keys.take(j as int).lemma_filter_len_push(occurs(bag, q as nat), keys[j as int]);
            }
        }
        table.insert(r, seen + 1);
        j += 1;
    }
    proof {
        assert(keys.take(j as int) =~= keys);
        assert forall|r: usize| rows_with(keys, bag, r as nat) == frequency_of(bag, r as nat) by {
            lemma_enumerated_filter_len(keys, bag, occurs(bag, r as nat));
        }
        assert(table@ =~= frequency_table(bag));
    }
    table
}

/// The sentences of the sample corpus.
pub open spec fn sample_sentences() -> Seq<Seq<Word>> {
    seq![
        seq!["the"@, "cat"@, "sat"@, "on"@, "the"@, "mat"@],
        seq!["the"@, "dog"@, "sat"@, "on"@, "the"@, "log"@],
        seq!["the"@, "cat"@, "chased"@, "the"@, "dog"@],
        seq!["the"@, "dog"@, "ran"@, "after"@, "the"@, "mouse"@],
    ]
}

/// The test bigrams of the sample corpus, which cover three regimes:
/// bigrams that the corpus holds, bigrams that it does not hold although it
/// holds both of their words, and a bigram with a word that the corpus does
/// not hold at all.
pub open spec fn sample_test_pairs() -> Seq<Bigram> {
    seq![
        ("the"@, "cat"@),
        ("cat"@, "sat"@),
        ("dog"@, "sat"@),
        ("the"@, "dog"@),
        ("cat"@, "dog"@),
        ("dog"@, "mat"@),
        ("mat"@, "the"@),
        ("mouse"@, "ran"@),
        ("bird"@, "flew"@),
    ]
}

/// The test bigrams of the sample corpus cover the three regimes: the first
/// of them occurs in the corpus; the sixth does not, although both of its
/// words do; and neither word of the last occurs in the corpus at all.
pub proof fn lemma_sample_covers_the_regimes()
    ensures
        corpus_bigrams(sample_sentences()).count(sample_test_pairs()[0]) > 0,
        corpus_bigrams(sample_sentences()).count(sample_test_pairs()[5]) == 0,
        corpus_unigrams(sample_sentences()).count(sample_test_pairs()[5].0) > 0,
        corpus_unigrams(sample_sentences()).count(sample_test_pairs()[5].1) > 0,
        corpus_unigrams(sample_sentences()).count(sample_test_pairs()[8].0) == 0,
        corpus_unigrams(sample_sentences()).count(sample_test_pairs()[8].1) == 0,
{
    reveal_strlit("the");
    reveal_strlit("cat");
    reveal_strlit("sat");
    reveal_strlit("on");
    reveal_strlit("mat");
    reveal_strlit("dog");
    reveal_strlit("log");
    reveal_strlit("chased");
    reveal_strlit("ran");
    reveal_strlit("after");
    reveal_strlit("mouse");
    reveal_strlit("bird");
    reveal_strlit("flew");
    let all = sample_sentences();
    let seen = sample_test_pairs()[0];
    let unseen = sample_test_pairs()[5];
    let bird = sample_test_pairs()[8].0;
    let flew = sample_test_pairs()[8].1;
    let mat = "mat"@;
    let dog = "dog"@;
    // "the cat" begins the first sentence
    lemma_bigram_occurs(all, seen);
    assert(adjacent_pairs(all[0])[0] == seen);
    // "dog" and "mat" are words of the second and of the first sentence
    lemma_word_occurs(all, dog);
    lemma_word_occurs(all, mat);
    assert(all[1][1] == dog);
    assert(all[0][5] == mat);
    // no word but "mat" begins with an m, and "mat" follows "the" alone
    assert(mat[0] != "cat"@[0] && mat[0] != "sat"@[0] && mat[0] != "the"@[0] && mat[0] != dog[0]
        && mat[0] != "log"@[0] && mat[0] != "ran"@[0]);
    assert(mat.len() != "on"@.len() && mat.len() != "chased"@.len() && mat.len() != "after"@.len()
        && mat.len() != "mouse"@.len());
    assert(dog[0] != "the"@[0]);
    lemma_bigram_occurs(all, unseen);
    assert forall|i: int| 0 <= i < all.len() implies !adjacent_pairs(#[trigger] all[i]).contains(
        unseen,
    ) by {
        let pairs = adjacent_pairs(all[i]);
        assert forall|j: int| 0 <= j < pairs.len() implies pairs[j] != unseen by {
            if pairs[j].1 == mat {
                assert(i == 0 && j == 4);
            }
        }
    }
    // every word of the corpus has two, three, five or six letters; these have four
    lemma_word_occurs(all, bird);
    lemma_word_occurs(all, flew);
    assert forall|i: int| 0 <= i < all.len() implies !(#[trigger] all[i]).contains(bird)
        && !all[i].contains(flew) by {
        assert forall|j: int| 0 <= j < all[i].len() implies all[i][j].len() != 4 by {}
    }
}

/// The words of one sentence as owned strings.
fn sentence(tokens: Vec<&str>) -> (words: Vec<String>)
    ensures
        words.deep_view() == Seq::new(tokens@.len(), |i: int| tokens@[i]@),
{
    let mut words: Vec<String> = Vec::new();
    let mut i: usize = 0;
    while i < tokens.len()
        invariant
            i <= tokens.len(),
            words.len() == i,
            forall|j: int| 0 <= j < i ==> words@[j]@ == tokens@[j]@,
        decreases tokens.len() - i,
    {
        words.push(tokens[i].to_owned());
        i += 1;
    }
    assert(words.deep_view() =~= Seq::new(tokens@.len(), |i: int| tokens@[i]@));
    words
}

/// One bigram as a pair of owned strings.
fn pair(context: &str, word: &str) -> (p: (String, String))
    ensures
        p.deep_view() == (context@, word@),
{
    (context.to_owned(), word.to_owned())
}

/// The count model of a corpus: how often each word and each pair of
/// adjacent words occurs, with the aggregates derived from those counts.
///
/// A value of this type is always the count model of the sentences it was
/// built from; it is never changed afterwards.
pub struct Corpus {
    unigram_counts: Vec<WordCount>,
    bigram_counts: Vec<PairCount>,
    test_bigrams: Vec<(String, String)>,
    total_unigram_tokens: usize,
    total_bigram_tokens: usize,
    repetitions: HashMap<usize, usize>,
    sentences: Ghost<Seq<Seq<Word>>>,
}

impl Corpus {
    #[verifier::type_invariant]
    spec fn consistent(&self) -> bool {
        &&& words_match(self.unigram_counts@, corpus_unigrams(self.sentences@))
        &&& pairs_match(self.bigram_counts@, corpus_bigrams(self.sentences@))
        &&& self.total_unigram_tokens == corpus_unigrams(self.sentences@).len()
        &&& self.total_bigram_tokens == corpus_bigrams(self.sentences@).len()
        &&& self.repetitions@ == frequency_table(corpus_bigrams(self.sentences@))
    }

    /// The sentences that the model counts, each as the sequence of its words.
    pub closed spec fn sentences(&self) -> Seq<Seq<Word>> {
        self.sentences@
    }

    /// Every token occurrence of the corpus.
    pub open spec fn unigrams(&self) -> Multiset<Word> {
        corpus_unigrams(self.sentences())
    }

    /// Every occurrence of an adjacent pair of the corpus.
    pub open spec fn bigrams(&self) -> Multiset<Bigram> {
        corpus_bigrams(self.sentences())
    }

    /// The bigrams that the model is to be evaluated on, in order.
    pub closed spec fn test_pairs(&self) -> Seq<Bigram> {
        self.test_bigrams.deep_view()
    }

    /// Builds the count model of the sample corpus, four short sentences
    /// about a cat, a dog and a mouse, with its test bigrams.
    pub fn new() -> (c: Corpus)
        ensures
            c.sentences() == sample_sentences(),
            c.test_pairs() == sample_test_pairs(),
    {
        broadcast use vstd::multiset::group_multiset_axioms;

        let mut sentences: Vec<Vec<String>> = Vec::new();
        sentences.push(sentence(vec!["the", "cat", "sat", "on", "the", "mat"]));
        sentences.push(sentence(vec!["the", "dog", "sat", "on", "the", "log"]));
        sentences.push(sentence(vec!["the", "cat", "chased", "the", "dog"]));
        sentences.push(sentence(vec!["the", "dog", "ran", "after", "the", "mouse"]));
        let mut test_bigrams: Vec<(String, String)> = Vec::new();
        test_bigrams.push(pair("the", "cat"));
        test_bigrams.push(pair("cat", "sat"));
        test_bigrams.push(pair("dog", "sat"));
        test_bigrams.push(pair("the", "dog"));
        test_bigrams.push(pair("cat", "dog"));
        test_bigrams.push(pair("dog", "mat"));
        test_bigrams.push(pair("mat", "the"));
        test_bigrams.push(pair("mouse", "ran"));
        test_bigrams.push(pair("bird", "flew"));
        proof {
            let all = sentences.deep_view();
            assert(all =~= sample_sentences()) by {
                assert(all[0] =~= sample_sentences()[0]);
                assert(all[1] =~= sample_sentences()[1]);
                assert(all[2] =~= sample_sentences()[2]);
                assert(all[3] =~= sample_sentences()[3]);
            }
            assert(test_bigrams.deep_view() =~= sample_test_pairs());
            let three = all.drop_last();
            let two = three.drop_last();
            let one = two.drop_last();
            assert(one.drop_last().len() == 0);
            to_multiset_len(all.last());
            to_multiset_len(three.last());
            to_multiset_len(two.last());
            to_multiset_len(one.last());
            assert(corpus_unigrams(one.drop_last()).len() == 0);
            assert(one.last() == all[0] && two.last() == all[1] && three.last() == all[2]);
            assert(all[0].len() == 6 && all[1].len() == 6 && all[2].len() == 5 && all[3].len() == 6);
            assert(corpus_unigrams(one).len() == 6);
            assert(corpus_unigrams(two).len() == 12);
            assert(corpus_unigrams(three).len() == 17);
            assert(corpus_unigrams(all).len() == 23);
        }
        Corpus::count(&sentences, test_bigrams)
    }

    /// Builds the count model of `sentences`, each given as its words in
    /// order. The result is `None` where the sentences hold more tokens
    /// than a `usize` can count.
    pub fn from_sentences(sentences: &Vec<Vec<String>>, test_bigrams: Vec<(String, String)>) -> (c:
        Option<Corpus>)
        ensures
            match c {
                Some(c) => c.sentences() == sentences.deep_view() && c.test_pairs()
                    == test_bigrams.deep_view(),
                None => corpus_unigrams(sentences.deep_view()).len() > usize::MAX,
            },
    {
        broadcast use vstd::multiset::group_multiset_axioms;

        let ghost all = sentences.deep_view();
        let mut total: usize = 0;
        let mut s: usize = 0;
        proof {
            assert(all.take(0) =~= Seq::empty());
        }
        while s < sentences.len()
            invariant
                s <= sentences.len(),
                all == sentences.deep_view(),
                total == corpus_unigrams(all.take(s as int)).len(),
            decreases sentences.len() - s,
        {
            proof {
                assert(all[s as int] =~= sentences[s as int].deep_view());
                assert(all.take(s + 1).drop_last() =~= all.take(s as int));
                to_multiset_len(all[s as int]);
                lemma_prefix_unigrams(all, s + 1);
            }
            total = match total.checked_add(sentences[s].len()) {
                Some(sum) => sum,
                None => {
                    return None;
                },
            };
            s += 1;
        }
        proof {
            assert(all.take(s as int) =~= all);
        }
        Some(Corpus::count(sentences, test_bigrams))
    }

    /// Counts the words and the adjacent pairs of `sentences`.
    fn count(sentences: &Vec<Vec<String>>, test_bigrams: Vec<(String, String)>) -> (c: Corpus)
        requires
            corpus_unigrams(sentences.deep_view()).len() <= usize::MAX,
        ensures
            c.sentences() == sentences.deep_view(),
            c.test_pairs() == test_bigrams.deep_view(),
    {
        broadcast use vstd::multiset::group_multiset_axioms;

        let ghost all = sentences.deep_view();
        let mut words: Vec<WordCount> = Vec::new();
        let mut pairs: Vec<PairCount> = Vec::new();
        let mut total_words: usize = 0;
        let mut total_pairs: usize = 0;
        let mut s: usize = 0;
        proof {
            assert(all.take(0) =~= Seq::empty());
        }
        while s < sentences.len()
            invariant
                s <= sentences.len(),
                all == sentences.deep_view(),
                corpus_unigrams(all).len() <= usize::MAX,
                words_match(words@, corpus_unigrams(all.take(s as int))),
                pairs_match(pairs@, corpus_bigrams(all.take(s as int))),
                total_words == corpus_unigrams(all.take(s as int)).len(),
                total_pairs == corpus_bigrams(all.take(s as int)).len(),
                total_pairs <= total_words,
            decreases sentences.len() - s,
        {
            let tokens = &sentences[s];
            let ghost line = all[s as int];
            let ghost done_words = corpus_unigrams(all.take(s as int));
            let ghost done_pairs = corpus_bigrams(all.take(s as int));
            let n = tokens.len();
            proof {
                assert(line =~= tokens.deep_view());
                assert(all.take(s + 1).drop_last() =~= all.take(s as int));
                assert(all.take(s + 1).last() == line);
                lemma_prefix_unigrams(all, s + 1);
                assert(line.take(0) =~= Seq::empty());
                assert(adjacent_pairs(line).take(0) =~= Seq::empty());
                to_multiset_len(Seq::<Word>::empty());
                to_multiset_len(Seq::<Bigram>::empty());
                to_multiset_len(line);
                assert(done_words.add(Seq::<Word>::empty().to_multiset()) =~= done_words);
                assert(done_pairs.add(Seq::<Bigram>::empty().to_multiset()) =~= done_pairs);
            }
            let mut i: usize = 0;
            while i < n
                invariant
                    i <= n,
                    n == tokens.len(),
                    line == tokens.deep_view(),
                    words_match(words@, done_words.add(line.take(i as int).to_multiset())),
                    pairs_match(
                        pairs@,
                        done_pairs.add(
                            adjacent_pairs(line).take(pairs_begun(i as int, n as int)).to_multiset(),
                        ),
                    ),
                    total_words == done_words.len() + i,
                    total_pairs == done_pairs.len() + pairs_begun(i as int, n as int),
                    total_pairs <= total_words,
                    done_words.len() + n <= usize::MAX,
                decreases n - i,
            {
                let ghost seen_words = done_words.add(line.take(i as int).to_multiset());
                let ghost seen_pairs = done_pairs.add(
                    adjacent_pairs(line).take(pairs_begun(i as int, n as int)).to_multiset(),
                );
                proof {
                    assert(line.take(i + 1) =~= line.take(i as int).push(line[i as int]));
                    assert(line[i as int] == tokens[i as int]@);
                    to_multiset_build(line.take(i as int), line[i as int]);
                    to_multiset_len(line.take(i as int));
                    to_multiset_len(adjacent_pairs(line).take(pairs_begun(i as int, n as int)));
                    assert(seen_words.insert(line[i as int]) =~= done_words.add(
                        line.take(i + 1).to_multiset(),
                    ));
                }
                count_word(&mut words, &tokens[i], Ghost(seen_words));
                total_words = total_words + 1;
                if i + 1 < n {
                    proof {
                        let these = adjacent_pairs(line);
                        assert(these.take(i + 1) =~= these.take(i as int).push(these[i as int]));
                        assert(these[i as int] == (tokens[i as int]@, tokens[i + 1]@));
                        to_multiset_build(these.take(i as int), these[i as int]);
                        assert(seen_pairs.insert(these[i as int]) =~= done_pairs.add(
                            these.take(i + 1).to_multiset(),
                        ));
                    }
                    count_pair(&mut pairs, &tokens[i], &tokens[i + 1], Ghost(seen_pairs));
                    total_pairs = total_pairs + 1;
                }
                i += 1;
            }
            proof {
                to_multiset_len(line);
                to_multiset_len(adjacent_pairs(line));
                assert(line.take(n as int) =~= line);
                assert(adjacent_pairs(line).take(pairs_begun(n as int, n as int)) =~= adjacent_pairs(
                    line,
                ));
            }
            s += 1;
        }
        proof {
            assert(all.take(s as int) =~= all);
        }
        let repetitions = tabulate(&pairs, Ghost(corpus_bigrams(all)));
        Corpus {
            unigram_counts: words,
            bigram_counts: pairs,
            test_bigrams,
            total_unigram_tokens: total_words,
            total_bigram_tokens: total_pairs,
            repetitions,
            sentences: Ghost(all),
        }
    }

    /// How often `word` occurs in the corpus; zero for a word that the
    /// corpus does not hold.
    pub fn get_unigram_start_count(&self, word: &str) -> (n: usize)
        ensures
            n == self.unigrams().count(word@),
    {
        proof {
            use_type_invariant(self);
        }
        let needle = word.to_owned();
        let ghost keys = word_keys(self.unigram_counts@);
        let mut i: usize = 0;
        while i < self.unigram_counts.len()
            invariant
                i <= self.unigram_counts.len(),
                needle@ == word@,
                keys == word_keys(self.unigram_counts@),
                words_match(self.unigram_counts@, self.unigrams()),
                forall|j: int| 0 <= j < i ==> keys[j] != word@,
            decreases self.unigram_counts.len() - i,
        {
            if self.unigram_counts[i].word == needle {
                return self.unigram_counts[i].count;
            }
            assert(keys[i as int] != word@);
            i += 1;
        }
        assert(!keys.contains(word@));
        0
    }

    /// How often the pair `bigram` occurs in the corpus; zero for a pair
    /// that the corpus does not hold.
    pub fn get_bigram_count(&self, bigram: &(String, String)) -> (n: usize)
        ensures
            n == self.bigrams().count((bigram.0@, bigram.1@)),
    {
        proof {
            use_type_invariant(self);
        }
        let ghost key = (bigram.0@, bigram.1@);
        let ghost keys = pair_keys(self.bigram_counts@);
        let mut i: usize = 0;
        while i < self.bigram_counts.len()
            invariant
                i <= self.bigram_counts.len(),
                key == (bigram.0@, bigram.1@),
                keys == pair_keys(self.bigram_counts@),
                pairs_match(self.bigram_counts@, self.bigrams()),
                forall|j: int| 0 <= j < i ==> keys[j] != key,
            decreases self.bigram_counts.len() - i,
        {
            if self.bigram_counts[i].context == bigram.0 && self.bigram_counts[i].word == bigram.1 {
                return self.bigram_counts[i].count;
            }
            assert(keys[i as int] != key);
            i += 1;
        }
        assert(!keys.contains(key));
        0
    }

    /// The number of distinct words of the corpus.
    pub fn vocab_size(&self) -> (n: usize)
        ensures
            n == self.unigrams().dom().len(),
    {
        proof {
            use_type_invariant(self);
            lemma_enumerated_len(word_keys(self.unigram_counts@), self.unigrams());
        }
        self.unigram_counts.len()
    }

    /// The bigrams that the model is to be evaluated on.
    pub fn test_bigrams(&self) -> (pairs: &Vec<(String, String)>)
        ensures
            pairs.deep_view() == self.test_pairs(),
    {
        &self.test_bigrams
    }

    /// `N1+(h .)`: the number of distinct words that follow `context`.
    pub fn get_num_unique_continuations(&self, context: &str) -> (n: usize)
        ensures
            n == unique_continuations(self.bigrams(), context@),
    {
        proof {
            use_type_invariant(self);
            reveal(Seq::filter);
        }
        let needle = context.to_owned();
        let ghost keys = pair_keys(self.bigram_counts@);
        let ghost pred = starts_with(context@);
        let mut n: usize = 0;
        let mut i: usize = 0;
        proof {
            assert(keys.take(0) =~= Seq::empty());
        }
        while i < self.bigram_counts.len()
            invariant
                i <= self.bigram_counts.len(),
                needle@ == context@,
                pred == starts_with(context@),
                keys == pair_keys(self.bigram_counts@),
                n == keys.take(i as int).filter(pred).len(),
                n <= i,
            decreases self.bigram_counts.len() - i,
        {
            proof {
                assert(keys.take(i + 1) =~= keys.take(i as int).push(keys[i as int]));
                keys.take(i as int).lemma_filter_len_push(pred, keys[i as int]);
            }
            if self.bigram_counts[i].context == needle {
                n = n + 1;
            }
            i += 1;
        }
        proof {
            assert(keys.take(i as int) =~= keys);
            lemma_enumerated_filter_len(keys, self.bigrams(), pred);
        }
        n
    }

    /// `N1+(. w)`: the number of distinct words that precede `word`.
    pub fn get_unique_predecessors_of_w2(&self, word: &str) -> (n: usize)
        ensures
            n == unique_predecessors(self.bigrams(), word@),
    {
        proof {
            use_type_invariant(self);
            reveal(Seq::filter);
        }
        let needle = word.to_owned();
        let ghost keys = pair_keys(self.bigram_counts@);
        let ghost pred = ends_with(word@);
        let mut n: usize = 0;
        let mut i: usize = 0;
        proof {
            assert(keys.take(0) =~= Seq::empty());
        }
        while i < self.bigram_counts.len()
            invariant
                i <= self.bigram_counts.len(),
                needle@ == word@,
                pred == ends_with(word@),
                keys == pair_keys(self.bigram_counts@),
                n == keys.take(i as int).filter(pred).len(),
                n <= i,
            decreases self.bigram_counts.len() - i,
        {
            proof {
                assert(keys.take(i + 1) =~= keys.take(i as int).push(keys[i as int]));
                keys.take(i as int).lemma_filter_len_push(pred, keys[i as int]);
            }
            if self.bigram_counts[i].word == needle {
                n = n + 1;
            }
            i += 1;
        }
        proof {
            assert(keys.take(i as int) =~= keys);
            lemma_enumerated_filter_len(keys, self.bigrams(), pred);
        }
        n
    }

    /// `c(h)`: how many bigram occurrences of the corpus start with `context`.
    pub fn get_context_count(&self, context: &str) -> (n: usize)
        ensures
            n == context_count(self.bigrams(), context@),
    {
        proof {
            use_type_invariant(self);
        }
        let needle = context.to_owned();
        let ghost keys = pair_keys(self.bigram_counts@);
        let ghost bag = self.bigrams();
        let ghost pred = starts_with(context@);
        let mut n: usize = 0;
        let mut i: usize = 0;
        proof {
            assert(keys.take(0) =~= Seq::empty());
        }
        while i < self.bigram_counts.len()
            invariant
                i <= self.bigram_counts.len(),
                needle@ == context@,
                pred == starts_with(context@),
                bag == self.bigrams(),
                keys == pair_keys(self.bigram_counts@),
                pairs_match(self.bigram_counts@, bag),
                bag.len() <= usize::MAX,
                n == tally(keys.take(i as int), bag, pred),
            decreases self.bigram_counts.len() - i,
        {
            proof {
                lemma_tally_step(keys, bag, pred, i as int);
                lemma_tally_listed(keys.take(i + 1), bag, pred);
                lemma_filter_bounds(bag, listed(keys.take(i + 1), pred));
            }
            if self.bigram_counts[i].context == needle {
                n = n + self.bigram_counts[i].count;
            }
            i += 1;
        }
        proof {
            assert(keys.take(i as int) =~= keys);
            lemma_tally_enumerated(keys, bag, pred);
        }
        n
    }

    /// The number of token occurrences of the corpus.
    pub fn get_total_unigram_tokens(&self) -> (n: usize)
        ensures
            n == self.unigrams().len(),
    {
        proof {
            use_type_invariant(self);
        }
        self.total_unigram_tokens
    }

    /// The number of bigram occurrences of the corpus.
    pub fn get_total_existing_bigrams(&self) -> (n: usize)
        ensures
            n == self.bigrams().len(),
    {
        proof {
            use_type_invariant(self);
        }
        self.total_bigram_tokens
    }

    /// `N1+(. .)`: the number of distinct bigrams of the corpus.
    pub fn get_total_distinct_bigram_types(&self) -> (n: usize)
        ensures
            n == self.bigrams().dom().len(),
    {
        proof {
            use_type_invariant(self);
            lemma_enumerated_len(pair_keys(self.bigram_counts@), self.bigrams());
        }
        self.bigram_counts.len()
    }

    /// The number of pairs of vocabulary words that never occur as a bigram.
    pub fn get_legal_unseen_bigrams(&self) -> (n: u128)
        ensures
            n == legal_unseen(self.unigrams(), self.bigrams()),
    {
        proof {
            use_type_invariant(self);
            lemma_distinct_bigrams_bound(self.sentences@);
        }
        let observed_types = self.get_total_distinct_bigram_types() as u128;
        let size = self.vocab_size() as u128;
        assert(size * size <= 0xFFFF_FFFF_FFFF_FFFF * 0xFFFF_FFFF_FFFF_FFFF) by (nonlinear_arith)
            requires
                size <= 0xFFFF_FFFF_FFFF_FFFF,
        ;
        let total_possible = size * size;
        total_possible - observed_types
    }

    /// The frequency-of-frequencies table of the corpus.
    pub fn repetitions(&self) -> (table: &HashMap<usize, usize>)
        ensures
            table@ == frequency_table(self.bigrams()),
    {
        proof {
            use_type_invariant(self);
        }
        &self.repetitions
    }
}

} // verus!
