use crate::bag::{
    lemma_distinct_within_len, lemma_filter_bounds, lemma_len_uniform, lemma_set_aside, occurs,
    other_than, sum_over,
};
use crate::data::model::{
    adjacent_pairs, context_count, context_counts, corpus_bigrams, corpus_unigrams, ends_among,
    ends_with, frequencies, frequency_of, frequency_table, occurs_among, predecessors_in,
    starts_among, starts_with, table_entry, unique_continuations, unique_predecessors,
    weighted_frequencies, Bigram, Word,
};
use vstd::multiset::Multiset;
use vstd::prelude::*;
use vstd::seq_lib::{to_multiset_build, to_multiset_contains, to_multiset_len};
use vstd::set_lib::{lemma_map_size_bound, lemma_set_disjoint_lens};

verus! {

/// A word occurs in a corpus exactly if some sentence of the corpus holds it.
pub proof fn lemma_word_occurs(sentences: Seq<Seq<Word>>, w: Word)
    ensures
        corpus_unigrams(sentences).count(w) > 0 <==> exists|i: int|
            0 <= i < sentences.len() && (#[trigger] sentences[i]).contains(w),
    decreases sentences.len(),
{
    broadcast use vstd::multiset::group_multiset_axioms;

    if sentences.len() > 0 {
        let front = sentences.drop_last();
        let line = sentences.last();
        lemma_word_occurs(front, w);
        to_multiset_contains(line, w);
        if corpus_unigrams(sentences).count(w) > 0 {
            if line.contains(w) {
                assert(sentences[sentences.len() - 1].contains(w));
            } else {
                let i = choose|i: int| 0 <= i < front.len() && (#[trigger] front[i]).contains(w);
                assert(sentences[i].contains(w));
            }
        }
        if exists|i: int| 0 <= i < sentences.len() && (#[trigger] sentences[i]).contains(w) {
            let i = choose|i: int|
                0 <= i < sentences.len() && (#[trigger] sentences[i]).contains(w);
            if i < front.len() {
                assert(front[i].contains(w));
            }
        }
    }
}

/// A bigram occurs in a corpus exactly if it is an adjacent pair of some
/// sentence of the corpus.
pub proof fn lemma_bigram_occurs(sentences: Seq<Seq<Word>>, b: Bigram)
    ensures
        corpus_bigrams(sentences).count(b) > 0 <==> exists|i: int|
            0 <= i < sentences.len() && adjacent_pairs(#[trigger] sentences[i]).contains(b),
    decreases sentences.len(),
{
    broadcast use vstd::multiset::group_multiset_axioms;

    if sentences.len() > 0 {
        let front = sentences.drop_last();
        let line = sentences.last();
        lemma_bigram_occurs(front, b);
        to_multiset_contains(adjacent_pairs(line), b);
        if corpus_bigrams(sentences).count(b) > 0 {
            if adjacent_pairs(line).contains(b) {
                assert(adjacent_pairs(sentences[sentences.len() - 1]).contains(b));
            } else {
                let i = choose|i: int|
                    0 <= i < front.len() && adjacent_pairs(#[trigger] front[i]).contains(b);
                assert(adjacent_pairs(sentences[i]).contains(b));
            }
        }
        if exists|i: int|
            0 <= i < sentences.len() && adjacent_pairs(#[trigger] sentences[i]).contains(b) {
            let i = choose|i: int|
                0 <= i < sentences.len() && adjacent_pairs(#[trigger] sentences[i]).contains(b);
            if i < front.len() {
                assert(adjacent_pairs(front[i]).contains(b));
            }
        }
    }
}

/// Both words of every bigram of a corpus are words of that corpus.
pub proof fn lemma_bigram_words_are_known(sentences: Seq<Seq<Word>>, b: Bigram)
    requires
        corpus_bigrams(sentences).count(b) > 0,
    ensures
        corpus_unigrams(sentences).count(b.0) > 0,
        corpus_unigrams(sentences).count(b.1) > 0,
    decreases sentences.len(),
{
    broadcast use vstd::multiset::group_multiset_axioms;

    if sentences.len() > 0 {
        let front = sentences.drop_last();
        let line = sentences.last();
        if corpus_bigrams(front).count(b) > 0 {
            lemma_bigram_words_are_known(front, b);
        } else {
            let pairs = adjacent_pairs(line);
            to_multiset_contains(pairs, b);
            let i = choose|i: int| 0 <= i < pairs.len() && pairs[i] == b;
            assert(line[i] == b.0 && line[i + 1] == b.1);
            assert(line.contains(b.0));
            assert(line.contains(b.1));
            to_multiset_contains(line, b.0);
            to_multiset_contains(line, b.1);
        }
    }
}

/// A corpus holds no more bigram occurrences than token occurrences.
pub proof fn lemma_bigrams_within_tokens(sentences: Seq<Seq<Word>>)
    ensures
        corpus_bigrams(sentences).len() <= corpus_unigrams(sentences).len(),
    decreases sentences.len(),
{
    broadcast use vstd::multiset::group_multiset_axioms;

    if sentences.len() > 0 {
        lemma_bigrams_within_tokens(sentences.drop_last());
        to_multiset_len(sentences.last());
        to_multiset_len(adjacent_pairs(sentences.last()));
    }
}

/// A set of pairs whose first components lie in `firsts` and whose second
/// components lie in `seconds` has at most as many elements as there are
/// such pairs.
pub proof fn lemma_pairs_bound<X, Y>(pairs: Set<(X, Y)>, firsts: Set<X>, seconds: Set<Y>)
    requires
        pairs.finite(),
        firsts.finite(),
        seconds.finite(),
        forall|p: (X, Y)| pairs.contains(p) ==> firsts.contains(p.0) && seconds.contains(p.1),
    ensures
        pairs.len() <= firsts.len() * seconds.len(),
    decreases firsts.len(),
{
    broadcast use vstd::set::group_set_axioms;

    if firsts.len() == 0 {
        assert(firsts =~= Set::empty());
        assert(pairs =~= Set::empty()) by {
            assert forall|p: (X, Y)| !pairs.contains(p) by {
                if pairs.contains(p) {
                    assert(firsts.contains(p.0));
                }
            }
        }
        assert(firsts.len() * seconds.len() == 0) by (nonlinear_arith)
            requires
                firsts.len() == 0,
        ;
    } else {
        let x = firsts.choose();
        let here = pairs.filter(|p: (X, Y)| p.0 == x);
        let rest = pairs.filter(|p: (X, Y)| p.0 != x);
        pairs.lemma_len_filter(|p: (X, Y)| p.0 == x);
        pairs.lemma_len_filter(|p: (X, Y)| p.0 != x);
        lemma_pairs_bound(rest, firsts.remove(x), seconds);
        // the pairs that begin with `x` are as many as their second components
        let with_x = |y: Y| (x, y);
        let partners = seconds.filter(|y: Y| pairs.contains((x, y)));
        seconds.lemma_len_filter(|y: Y| pairs.contains((x, y)));
        assert forall|p: (X, Y)| here.contains(p) implies partners.map(with_x).contains(p) by {
            assert(partners.contains(p.1));
            assert(with_x(p.1) == p);
        }
        assert(partners.map(with_x) =~= here);
        lemma_map_size_bound(partners, here, with_x);
        assert(here.disjoint(rest));
        assert(pairs =~= here + rest);
        lemma_set_disjoint_lens(here, rest);
        assert(firsts.len() * seconds.len() == (firsts.len() - 1) * seconds.len() + seconds.len())
            by (nonlinear_arith);
    }
}

/// A corpus has at most as many distinct bigrams as there are pairs of its
/// distinct words.
pub proof fn lemma_distinct_bigrams_bound(sentences: Seq<Seq<Word>>)
    ensures
        corpus_bigrams(sentences).dom().len() <= corpus_unigrams(sentences).dom().len()
            * corpus_unigrams(sentences).dom().len(),
{
    broadcast use vstd::multiset::group_multiset_axioms;

    let words = corpus_unigrams(sentences).dom();
    let pairs = corpus_bigrams(sentences).dom();
    assert forall|p: Bigram| pairs.contains(p) implies words.contains(p.0) && words.contains(
        p.1,
    ) by {
        lemma_bigram_words_are_known(sentences, p);
    }
    lemma_pairs_bound(pairs, words, words);
}

/// A bigram occurs no more often than its context starts bigrams; the
/// context has no more distinct continuations than it starts bigrams; and
/// where the bigram occurs, it is one of those continuations and leaves at
/// least one occurrence for each of the others.
pub proof fn lemma_context_counts(bigrams: Multiset<Bigram>, b: Bigram)
    ensures
        bigrams.count(b) <= context_count(bigrams, b.0),
        unique_continuations(bigrams, b.0) <= context_count(bigrams, b.0),
        context_count(bigrams, b.0) <= bigrams.len(),
        bigrams.count(b) > 0 ==> unique_continuations(bigrams, b.0) > 0 && bigrams.count(b)
            + unique_continuations(bigrams, b.0) <= context_count(bigrams, b.0) + 1,
        context_count(bigrams, b.0) > 0 ==> unique_continuations(bigrams, b.0) > 0,
{
    broadcast use vstd::multiset::group_multiset_axioms;
    broadcast use vstd::set::group_set_axioms;

    let after = bigrams.filter(starts_with(b.0));
    lemma_filter_bounds(bigrams, starts_with(b.0));
    lemma_distinct_within_len(after);
    assert(after.count(b) == bigrams.count(b));
    if bigrams.count(b) > 0 {
        lemma_set_aside(after, b);
        lemma_distinct_within_len(after.filter(other_than(b)));
        assert(after.dom().contains(b));
    }
    if after.len() > 0 {
        let some = after.choose();
        assert(after.dom().contains(some));
    }
}

/// Within one sentence a word starts no more adjacent pairs than it has
/// occurrences, and one fewer where the sentence ends in it.
proof fn lemma_line_context(line: Seq<Word>, h: Word)
    ensures
        adjacent_pairs(line).to_multiset().filter(starts_with(h)).len() + (if line.len() > 0
            && line.last() == h {
            1nat
        } else {
            0nat
        }) <= line.to_multiset().count(h),
    decreases line.len(),
{
    broadcast use vstd::multiset::group_multiset_axioms;

    if line.len() == 0 {
        to_multiset_len(adjacent_pairs(line));
        lemma_filter_bounds(adjacent_pairs(line).to_multiset(), starts_with(h));
    } else {
        let front = line.drop_last();
        let x = line.last();
        lemma_line_context(front, h);
        assert(line =~= front.push(x));
        to_multiset_build(front, x);
        if front.len() == 0 {
            to_multiset_len(adjacent_pairs(line));
            lemma_filter_bounds(adjacent_pairs(line).to_multiset(), starts_with(h));
        } else {
            let step = (front.last(), x);
            assert(adjacent_pairs(line) =~= adjacent_pairs(front).push(step));
            to_multiset_build(adjacent_pairs(front), step);
            let before = adjacent_pairs(front).to_multiset();
            if front.last() == h {
                assert(before.insert(step).filter(starts_with(h)) =~= before.filter(
                    starts_with(h),
                ).insert(step));
            } else {
                assert(before.insert(step).filter(starts_with(h)) =~= before.filter(
                    starts_with(h),
                ));
            }
        }
    }
}

/// A word starts no more bigram occurrences than it has occurrences itself.
pub proof fn lemma_context_within_word(sentences: Seq<Seq<Word>>, h: Word)
    ensures
        context_count(corpus_bigrams(sentences), h) <= corpus_unigrams(sentences).count(h),
    decreases sentences.len(),
{
    broadcast use vstd::multiset::group_multiset_axioms;

    if sentences.len() == 0 {
        lemma_filter_bounds(corpus_bigrams(sentences), starts_with(h));
    } else {
        let front = sentences.drop_last();
        let line = sentences.last();
        lemma_context_within_word(front, h);
        lemma_line_context(line, h);
        assert(corpus_bigrams(sentences).filter(starts_with(h)) =~= corpus_bigrams(front).filter(
            starts_with(h),
        ).add(adjacent_pairs(line).to_multiset().filter(starts_with(h))));
    }
}

/// Over a finite set of contexts, the context counts add up to the number
/// of bigram occurrences that start with one of those contexts.
pub proof fn lemma_context_sums(bigrams: Multiset<Bigram>, contexts: Set<Word>)
    requires
        contexts.finite(),
    ensures
        sum_over(contexts, context_counts(bigrams)) == bigrams.filter(
            starts_among(contexts),
        ).len(),
    decreases contexts.len(),
{
    broadcast use vstd::multiset::group_multiset_axioms;
    broadcast use vstd::set::group_set_axioms;

    if contexts.len() == 0 {
        assert(bigrams.filter(starts_among(contexts)) =~= Multiset::empty());
    } else {
        let h = contexts.choose();
        let rest = contexts.remove(h);
        lemma_context_sums(bigrams, rest);
        assert(bigrams.filter(starts_among(contexts)) =~= bigrams.filter(starts_with(h)).add(
            bigrams.filter(starts_among(rest)),
        ));
    }
}

/// Over any finite set of words that holds the context of every bigram,
/// the context counts add up to the number of bigram occurrences.
pub proof fn lemma_context_counts_account(bigrams: Multiset<Bigram>, contexts: Set<Word>)
    requires
        contexts.finite(),
        forall|b: Bigram| bigrams.count(b) > 0 ==> contexts.contains(b.0),
    ensures
        sum_over(contexts, context_counts(bigrams)) == bigrams.len(),
{
    broadcast use vstd::multiset::group_multiset_axioms;

    lemma_context_sums(bigrams, contexts);
    assert(bigrams.filter(starts_among(contexts)) =~= bigrams);
}

/// A word has no more distinct predecessors than there are distinct bigrams.
pub proof fn lemma_predecessors_within_bigrams(bigrams: Multiset<Bigram>, word: Word)
    ensures
        unique_predecessors(bigrams, word) <= bigrams.dom().len(),
{
    broadcast use vstd::multiset::group_multiset_axioms;

    bigrams.dom().lemma_len_filter(ends_with(word));
}

/// The bigrams that occur exactly `r` times account for `r * N_r`
/// occurrences, which is no more than the corpus holds.
pub proof fn lemma_frequency_within_total(bigrams: Multiset<Bigram>, r: nat)
    ensures
        bigrams.filter(occurs(bigrams, r)).len() == r * frequency_of(bigrams, r),
        r * frequency_of(bigrams, r) <= bigrams.len(),
        r == 0 ==> frequency_of(bigrams, r) == 0,
{
    broadcast use vstd::multiset::group_multiset_axioms;
    broadcast use vstd::set::group_set_axioms;

    let these = bigrams.filter(occurs(bigrams, r));
    lemma_filter_bounds(bigrams, occurs(bigrams, r));
    lemma_len_uniform(these, r);
    if r == 0 {
        assert(bigrams.dom().filter(occurs(bigrams, r)) =~= Set::empty());
    }
}

/// Over a finite set of words, the numbers of distinct predecessors add up
/// to the number of bigrams that end in one of those words.
pub proof fn lemma_predecessor_sum(pairs: Set<Bigram>, words: Set<Word>)
    requires
        pairs.finite(),
        words.finite(),
    ensures
        sum_over(words, predecessors_in(pairs)) == pairs.filter(ends_among(words)).len(),
    decreases words.len(),
{
    broadcast use vstd::set::group_set_axioms;

    if words.len() == 0 {
        assert(pairs.filter(ends_among(words)) =~= Set::empty());
    } else {
        let w = words.choose();
        let rest = words.remove(w);
        lemma_predecessor_sum(pairs, rest);
        let here = pairs.filter(ends_with(w));
        let others = pairs.filter(ends_among(rest));
        pairs.lemma_len_filter(ends_with(w));
        pairs.lemma_len_filter(ends_among(rest));
        assert(here.disjoint(others));
        assert(pairs.filter(ends_among(words)) =~= here + others);
        lemma_set_disjoint_lens(here, others);
    }
}

/// Over any finite set of words that holds every word with a predecessor,
/// the numbers of distinct predecessors add up to the number of distinct
/// bigrams. Divided by that number these are the continuation
/// probabilities, which therefore add up to exactly one.
pub proof fn lemma_continuation_mass(bigrams: Multiset<Bigram>, words: Set<Word>)
    requires
        words.finite(),
        forall|b: Bigram| bigrams.count(b) > 0 ==> words.contains(b.1),
    ensures
        sum_over(words, predecessors_in(bigrams.dom())) == bigrams.dom().len(),
        forall|w: Word| #[trigger]
            predecessors_in(bigrams.dom())(w) == unique_predecessors(bigrams, w),
{
    broadcast use vstd::multiset::group_multiset_axioms;

    lemma_predecessor_sum(bigrams.dom(), words);
    assert(bigrams.dom().filter(ends_among(words)) =~= bigrams.dom());
}

/// Over the vocabulary of a corpus, the numbers of distinct predecessors
/// add up to the number of distinct bigrams of the corpus.
pub proof fn lemma_vocabulary_continuation_mass(sentences: Seq<Seq<Word>>)
    ensures
        sum_over(
            corpus_unigrams(sentences).dom(),
            predecessors_in(corpus_bigrams(sentences).dom()),
        ) == corpus_bigrams(sentences).dom().len(),
{
    broadcast use vstd::multiset::group_multiset_axioms;

    assert forall|b: Bigram| corpus_bigrams(sentences).count(b) > 0 implies corpus_unigrams(
        sentences,
    ).dom().contains(b.1) by {
        lemma_bigram_words_are_known(sentences, b);
    }
    lemma_continuation_mass(corpus_bigrams(sentences), corpus_unigrams(sentences).dom());
}

/// Over a finite set of counts, the entries of the frequency-of-frequencies
/// table add up to the number of distinct bigrams whose count is in the
/// set, and weighted by their counts to the number of occurrences of those
/// bigrams.
pub proof fn lemma_frequency_sums(bigrams: Multiset<Bigram>, counts: Set<nat>)
    requires
        counts.finite(),
    ensures
        sum_over(counts, frequencies(bigrams)) == bigrams.dom().filter(
            occurs_among(bigrams, counts),
        ).len(),
        sum_over(counts, weighted_frequencies(bigrams)) == bigrams.filter(
            occurs_among(bigrams, counts),
        ).len(),
    decreases counts.len(),
{
    broadcast use vstd::multiset::group_multiset_axioms;
    broadcast use vstd::set::group_set_axioms;

    let types = bigrams.dom();
    if counts.len() == 0 {
        assert(types.filter(occurs_among(bigrams, counts)) =~= Set::empty());
        assert(bigrams.filter(occurs_among(bigrams, counts)) =~= Multiset::empty());
    } else {
        let r = counts.choose();
        let rest = counts.remove(r);
        lemma_frequency_sums(bigrams, rest);
        lemma_frequency_within_total(bigrams, r);
        let here = types.filter(occurs(bigrams, r));
        let others = types.filter(occurs_among(bigrams, rest));
        types.lemma_len_filter(occurs(bigrams, r));
        types.lemma_len_filter(occurs_among(bigrams, rest));
        assert(here.disjoint(others));
        assert(types.filter(occurs_among(bigrams, counts)) =~= here + others);
        lemma_set_disjoint_lens(here, others);
        assert(bigrams.filter(occurs_among(bigrams, counts)) =~= bigrams.filter(
            occurs(bigrams, r),
        ).add(bigrams.filter(occurs_among(bigrams, rest))));
    }
}

/// Over any finite set of counts that holds the count of every bigram, the
/// entries of the frequency-of-frequencies table add up to the number of
/// distinct bigrams, and weighted by their counts to the number of bigram
/// occurrences.
pub proof fn lemma_frequency_table_accounts(bigrams: Multiset<Bigram>, counts: Set<nat>)
    requires
        counts.finite(),
        forall|b: Bigram| bigrams.count(b) > 0 ==> counts.contains(bigrams.count(b)),
    ensures
        sum_over(counts, frequencies(bigrams)) == bigrams.dom().len(),
        sum_over(counts, weighted_frequencies(bigrams)) == bigrams.len(),
{
    broadcast use vstd::multiset::group_multiset_axioms;

    lemma_frequency_sums(bigrams, counts);
    assert(bigrams.dom().filter(occurs_among(bigrams, counts)) =~= bigrams.dom());
    assert(bigrams.filter(occurs_among(bigrams, counts)) =~= bigrams);
}

/// The frequency-of-frequencies table of a corpus that fits in memory holds
/// `N_r` at every count `r`.
pub proof fn lemma_table_holds_frequencies(bigrams: Multiset<Bigram>, r: nat)
    requires
        bigrams.len() <= usize::MAX,
    ensures
        table_entry(frequency_table(bigrams), r) == frequency_of(bigrams, r),
{
    broadcast use vstd::multiset::group_multiset_axioms;

    lemma_frequency_within_total(bigrams, r);
    let here = frequency_of(bigrams, r);
    if here > 0 {
        assert(r <= r * here) by (nonlinear_arith)
            requires
                here >= 1,
        ;
        assert(here <= r * here) by (nonlinear_arith)
            requires
                here >= 1,
                r >= 1,
        ;
    }
}

} // verus!
