use crate::bag::occurs;
use vstd::multiset::Multiset;
use vstd::prelude::*;

verus! {

/// A word of the corpus, as the sequence of its characters.
pub type Word = Seq<char>;

/// An ordered pair of adjacent words: the context, then the word that follows it.
pub type Bigram = (Seq<char>, Seq<char>);

/// The adjacent pairs of one sentence, in order. Pairs never reach across
/// the end of the sentence.
pub open spec fn adjacent_pairs(tokens: Seq<Word>) -> Seq<Bigram> {
    Seq::new(
        if tokens.len() == 0 {
            0
        } else {
            (tokens.len() - 1) as nat
        },
        |i: int| (tokens[i], tokens[i + 1]),
    )
}

/// Every token occurrence of the corpus.
pub open spec fn corpus_unigrams(sentences: Seq<Seq<Word>>) -> Multiset<Word>
    decreases sentences.len(),
{
    if sentences.len() == 0 {
        Multiset::empty()
    } else {
        corpus_unigrams(sentences.drop_last()).add(sentences.last().to_multiset())
    }
}

/// Every occurrence of an adjacent pair within a sentence of the corpus.
pub open spec fn corpus_bigrams(sentences: Seq<Seq<Word>>) -> Multiset<Bigram>
    decreases sentences.len(),
{
    if sentences.len() == 0 {
        Multiset::empty()
    } else {
        corpus_bigrams(sentences.drop_last()).add(adjacent_pairs(sentences.last()).to_multiset())
    }
}

/// The predicate that holds of the bigrams whose context is `context`.
pub open spec fn starts_with(context: Word) -> spec_fn(Bigram) -> bool {
    |b: Bigram| b.0 == context
}

/// The predicate that holds of the bigrams whose second word is `word`.
pub open spec fn ends_with(word: Word) -> spec_fn(Bigram) -> bool {
    |b: Bigram| b.1 == word
}

/// The predicate that holds of the bigrams whose context is one of `contexts`.
pub open spec fn starts_among(contexts: Set<Word>) -> spec_fn(Bigram) -> bool {
    |b: Bigram| contexts.contains(b.0)
}

/// The function that takes a context `h` to `c(h)`.
pub open spec fn context_counts(bigrams: Multiset<Bigram>) -> spec_fn(Word) -> nat {
    |h: Word| context_count(bigrams, h)
}

/// The predicate that holds of the bigrams whose second word is one of `words`.
pub open spec fn ends_among(words: Set<Word>) -> spec_fn(Bigram) -> bool {
    |b: Bigram| words.contains(b.1)
}

/// The function that takes a word to the number of the given bigrams that end in it.
pub open spec fn predecessors_in(pairs: Set<Bigram>) -> spec_fn(Word) -> nat {
    |w: Word| pairs.filter(ends_with(w)).len()
}

/// `c(h)`: how many bigram occurrences start with `context`.
pub open spec fn context_count(bigrams: Multiset<Bigram>, context: Word) -> nat {
    bigrams.filter(starts_with(context)).len()
}

/// `N1+(h .)`: how many distinct words follow `context`.
pub open spec fn unique_continuations(bigrams: Multiset<Bigram>, context: Word) -> nat {
    bigrams.dom().filter(starts_with(context)).len()
}

/// `N1+(. w)`: how many distinct words precede `word`.
pub open spec fn unique_predecessors(bigrams: Multiset<Bigram>, word: Word) -> nat {
    bigrams.dom().filter(ends_with(word)).len()
}

/// `N_r`: how many distinct bigrams occur exactly `r` times.
pub open spec fn frequency_of(bigrams: Multiset<Bigram>, r: nat) -> nat {
    bigrams.dom().filter(occurs(bigrams, r)).len()
}

/// The predicate that holds of the bigrams whose count is one of `counts`.
pub open spec fn occurs_among(bigrams: Multiset<Bigram>, counts: Set<nat>) -> spec_fn(Bigram) -> bool {
    |b: Bigram| counts.contains(bigrams.count(b))
}

/// The function that takes a count `r` to `N_r`.
pub open spec fn frequencies(bigrams: Multiset<Bigram>) -> spec_fn(nat) -> nat {
    |r: nat| frequency_of(bigrams, r)
}

/// The function that takes a count `r` to `r * N_r`, the number of
/// occurrences of the bigrams that occur `r` times.
pub open spec fn weighted_frequencies(bigrams: Multiset<Bigram>) -> spec_fn(nat) -> nat {
    |r: nat| r * frequency_of(bigrams, r)
}

/// The frequency-of-frequencies table: each count that some bigram has,
/// mapped to the number of distinct bigrams with that count.
pub open spec fn frequency_table(bigrams: Multiset<Bigram>) -> Map<usize, usize> {
    Map::new(
        |r: usize| frequency_of(bigrams, r as nat) > 0,
        |r: usize| frequency_of(bigrams, r as nat) as usize,
    )
}

/// The number of pairs of vocabulary words that never occur as a bigram.
pub open spec fn legal_unseen(unigrams: Multiset<Word>, bigrams: Multiset<Bigram>) -> int {
    unigrams.dom().len() * unigrams.dom().len() - bigrams.dom().len()
}

/// `N_r` as read from a frequency table: the entry at `r`, or zero where
/// the table has none.
pub open spec fn table_entry(table: Map<usize, usize>, r: nat) -> nat {
    if r <= usize::MAX && table.contains_key(r as usize) {
        table[r as usize] as nat
    } else {
        0
    }
}

} // verus!
