use crate::bag::lemma_distinct_within_len;
use crate::data::corpus::Corpus;
use crate::data::lemmas::{
    lemma_bigrams_within_tokens, lemma_context_counts, lemma_distinct_bigrams_bound,
    lemma_frequency_within_total, lemma_predecessors_within_bigrams,
    lemma_table_holds_frequencies,
};
use crate::data::model::{
    context_count, corpus_bigrams, corpus_unigrams, frequency_of, legal_unseen,
    unique_continuations, unique_predecessors, Bigram, Word,
};
use crate::ratio::{Fraction, Quotient, Ratio};
use crate::smoothing::absolute_discount::{
    absolute_discount_outcome, absolute_discount_smooth, lemma_absolute_discount_is_probability,
};
use crate::smoothing::error::{outcome, SmoothingError};
use crate::smoothing::good_turing::{
    good_turing, good_turing_outcome, lemma_good_turing_is_probability,
};
use crate::smoothing::interpolation::lemma_interpolated_fits;
use crate::smoothing::kneser_ney::{kneser_ney, kneser_ney_outcome, lemma_kneser_ney_is_probability};
use crate::smoothing::laplace::{laplace_outcome, laplace_smooth, lemma_laplace_is_probability};
use crate::smoothing::lidstone::{lemma_lidstone_is_probability, lidstone_outcome, lidstone_smooth};
use vstd::prelude::*;

verus! {

/// The estimators that the comparison covers.
#[derive(Clone, Copy, Debug, PartialEq, Eq, Structural)]
pub enum Method {
    Laplace,
    Lidstone,
    AbsoluteDiscount,
    GoodTuring,
    KneserNey,
}

/// The smoothing constants: `alpha` for add-alpha smoothing, `discount` for
/// absolute discounting and Kneser-Ney.
#[derive(Clone, Copy, Debug, PartialEq, Eq, Structural)]
pub struct Parameters {
    pub alpha: Fraction,
    pub discount: Fraction,
}

/// One row of the comparison table: the estimate of each method for one bigram.
#[derive(Clone, Copy, Debug, PartialEq, Eq, Structural)]
pub struct Comparison {
    pub laplace: Ratio,
    pub lidstone: Ratio,
    pub absolute_discount: Ratio,
    pub good_turing: Ratio,
    pub kneser_ney: Ratio,
}

/// What `method` estimates for the bigram `(context, word)` from the counts
/// of `sentences`, or why it gives no estimate.
///
/// Parameters are judged first, then the model. A count that is merely
/// missing is never an error: it is a count of zero.
pub open spec fn estimated(
    method: Method,
    sentences: Seq<Seq<Word>>,
    context: Word,
    word: Word,
    params: Parameters,
) -> Result<Quotient, SmoothingError> {
    let unigrams = corpus_unigrams(sentences);
    let bigrams = corpus_bigrams(sentences);
    let count = bigrams.count((context, word));
    let after = context_count(bigrams, context);
    let followers = unique_continuations(bigrams, context);
    let size = unigrams.dom().len();
    match method {
        Method::Laplace => laplace_outcome(count, after, size),
        Method::Lidstone => lidstone_outcome(count, after, size, params.alpha),
        Method::AbsoluteDiscount => absolute_discount_outcome(
            count,
            after,
            followers,
            unigrams.count(word),
            unigrams.len(),
            params.discount,
        ),
        Method::GoodTuring => good_turing_outcome(
            bigrams.len(),
            count,
            frequency_of(bigrams, 1),
            frequency_of(bigrams, count),
            frequency_of(bigrams, count + 1),
            legal_unseen(unigrams, bigrams) as nat,
        ),
        Method::KneserNey => kneser_ney_outcome(
            count,
            after,
            followers,
            unique_predecessors(bigrams, word),
            bigrams.dom().len(),
            params.discount,
        ),
    }
}

/// Every estimate that the model gives is a probability: it lies between
/// zero and one, both included.
pub proof fn lemma_estimates_are_probabilities(
    method: Method,
    sentences: Seq<Seq<Word>>,
    context: Word,
    word: Word,
    params: Parameters,
)
    ensures
        estimated(method, sentences, context, word, params) matches Ok(q) ==> q.is_probability(),
{
    broadcast use vstd::multiset::group_multiset_axioms;

    let unigrams = corpus_unigrams(sentences);
    let bigrams = corpus_bigrams(sentences);
    let count = bigrams.count((context, word));
    let after = context_count(bigrams, context);
    let followers = unique_continuations(bigrams, context);
    let size = unigrams.dom().len();
    lemma_context_counts(bigrams, (context, word));
    match method {
        Method::Laplace => {
            if size > 0 {
                lemma_laplace_is_probability(count, after, size);
            }
        },
        Method::Lidstone => {
            if params.alpha.is_positive() && size > 0 {
                lemma_lidstone_is_probability(
                    count,
                    after,
                    size,
                    params.alpha.num as nat,
                    params.alpha.den as nat,
                );
            }
        },
        Method::AbsoluteDiscount => {
            if params.discount.is_proper() && unigrams.len() > 0 {
                lemma_absolute_discount_is_probability(
                    count,
                    after,
                    followers,
                    unigrams.count(word),
                    unigrams.len(),
                    params.discount.num as nat,
                    params.discount.den as nat,
                );
            }
        },
        Method::GoodTuring => {
            lemma_frequency_within_total(bigrams, 1);
            lemma_frequency_within_total(bigrams, count + 1);
            assert(1 * frequency_of(bigrams, 1) == frequency_of(bigrams, 1)) by (nonlinear_arith);
            lemma_good_turing_is_probability(
                bigrams.len(),
                count,
                frequency_of(bigrams, 1),
                frequency_of(bigrams, count),
                frequency_of(bigrams, count + 1),
                legal_unseen(unigrams, bigrams) as nat,
            );
        },
        Method::KneserNey => {
            if params.discount.is_proper() && bigrams.dom().len() > 0 {
                lemma_predecessors_within_bigrams(bigrams, word);
                lemma_kneser_ney_is_probability(
                    count,
                    after,
                    followers,
                    unique_predecessors(bigrams, word),
                    bigrams.dom().len(),
                    params.discount.num as nat,
                    params.discount.den as nat,
                );
            }
        },
    }
}

/// For a corpus of fewer than 2^32 tokens no estimate is too large: every
/// method gives an estimate unless a parameter is invalid or the model is
/// degenerate.
pub proof fn lemma_small_models_are_estimated(
    method: Method,
    sentences: Seq<Seq<Word>>,
    context: Word,
    word: Word,
    params: Parameters,
)
    requires
        corpus_unigrams(sentences).len() <= u32::MAX,
    ensures
        estimated(method, sentences, context, word, params) != Err::<Quotient, SmoothingError>(
            SmoothingError::ModelTooLarge,
        ),
{
    broadcast use vstd::multiset::group_multiset_axioms;

    let unigrams = corpus_unigrams(sentences);
    let bigrams = corpus_bigrams(sentences);
    let count = bigrams.count((context, word));
    let after = context_count(bigrams, context);
    let followers = unique_continuations(bigrams, context);
    let size = unigrams.dom().len();
    let limit: nat = 0xFFFF_FFFF;
    lemma_context_counts(bigrams, (context, word));
    lemma_bigrams_within_tokens(sentences);
    lemma_distinct_within_len(bigrams);
    lemma_distinct_within_len(unigrams);
    lemma_predecessors_within_bigrams(bigrams, word);
    match method {
        Method::Laplace => {},
        Method::Lidstone => {},
        Method::AbsoluteDiscount => {
            if params.discount.is_proper() {
                lemma_interpolated_fits(
                    count,
                    after,
                    followers,
                    unigrams.count(word),
                    unigrams.len(),
                    params.discount.num as nat,
                    params.discount.den as nat,
                );
            }
        },
        Method::GoodTuring => {
            let unseen = legal_unseen(unigrams, bigrams) as nat;
            let next = frequency_of(bigrams, count + 1);
            lemma_distinct_bigrams_bound(sentences);
            lemma_frequency_within_total(bigrams, 1);
            lemma_frequency_within_total(bigrams, count);
            lemma_frequency_within_total(bigrams, count + 1);
            assert(1 * frequency_of(bigrams, 1) == frequency_of(bigrams, 1)) by (nonlinear_arith);
            assert(size * size <= limit * limit) by (nonlinear_arith)
                requires
                    size <= limit,
            ;
            assert(unseen * bigrams.len() <= limit * limit * limit) by (nonlinear_arith)
                requires
                    unseen <= limit * limit,
                    bigrams.len() <= limit,
            ;
            if count > 0 {
                assert(frequency_of(bigrams, count) <= count * frequency_of(bigrams, count))
                    by (nonlinear_arith)
                    requires
                        count >= 1,
                ;
                assert(frequency_of(bigrams, count) * bigrams.len() <= limit * limit)
                    by (nonlinear_arith)
                    requires
                        frequency_of(bigrams, count) <= limit,
                        bigrams.len() <= limit,
                ;
            }
            assert(limit * limit * limit <= u128::MAX) by (nonlinear_arith)
                requires
                    limit == 0xFFFF_FFFF,
            ;
        },
        Method::KneserNey => {
            if params.discount.is_proper() {
                lemma_interpolated_fits(
                    count,
                    after,
                    followers,
                    unique_predecessors(bigrams, word),
                    bigrams.dom().len(),
                    params.discount.num as nat,
                    params.discount.den as nat,
                );
            }
        },
    }
}

/// Estimates the probability of `word` after `context` by `method`, from
/// the counts of `corpus`.
pub fn estimate(
    method: Method,
    corpus: &Corpus,
    context: &str,
    word: &str,
    params: &Parameters,
) -> (p: Result<Ratio, SmoothingError>)
    ensures
        outcome(p) == estimated(method, corpus.sentences(), context@, word@, *params),
        p matches Ok(r) ==> r.den > 0,
{
    broadcast use vstd::multiset::group_multiset_axioms;

    let pair = (context.to_owned(), word.to_owned());
    let count = corpus.get_bigram_count(&pair);
    let after = corpus.get_context_count(context);
    let ghost unigrams = corpus.unigrams();
    let ghost bigrams = corpus.bigrams();
    proof {
        lemma_context_counts(bigrams, (context@, word@));
        lemma_bigrams_within_tokens(corpus.sentences());
        lemma_distinct_within_len(bigrams);
        lemma_predecessors_within_bigrams(bigrams, word@);
    }
    match method {
        Method::Laplace => laplace_smooth(count, after, corpus.vocab_size()),
        Method::Lidstone => lidstone_smooth(count, after, corpus.vocab_size(), params.alpha),
        Method::AbsoluteDiscount => absolute_discount_smooth(
            count,
            after,
            corpus.get_num_unique_continuations(context),
            corpus.get_unigram_start_count(word),
            corpus.get_total_unigram_tokens(),
            params.discount,
        ),
        Method::GoodTuring => {
            let total = corpus.get_total_existing_bigrams();
            proof {
                lemma_table_holds_frequencies(bigrams, 1);
                lemma_table_holds_frequencies(bigrams, count as nat);
                lemma_table_holds_frequencies(bigrams, count as nat + 1);
            }
            good_turing(total, count, corpus.repetitions(), corpus.get_legal_unseen_bigrams())
        },
        Method::KneserNey => kneser_ney(
            count,
            after,
            corpus.get_num_unique_continuations(context),
            corpus.get_unique_predecessors_of_w2(word),
            corpus.get_total_distinct_bigram_types(),
            params.discount,
        ),
    }
}

/// The first reason, in the order of the table's columns, why some method
/// gives no estimate for `pair`; `None` where every method gives one.
#[verifier::opaque]
pub open spec fn row_error(sentences: Seq<Seq<Word>>, pair: Bigram, params: Parameters) -> Option<
    SmoothingError,
> {
    if estimated(Method::Laplace, sentences, pair.0, pair.1, params) is Err {
        Some(estimated(Method::Laplace, sentences, pair.0, pair.1, params)->Err_0)
    } else if estimated(Method::Lidstone, sentences, pair.0, pair.1, params) is Err {
        Some(estimated(Method::Lidstone, sentences, pair.0, pair.1, params)->Err_0)
    } else if estimated(Method::AbsoluteDiscount, sentences, pair.0, pair.1, params) is Err {
        Some(estimated(Method::AbsoluteDiscount, sentences, pair.0, pair.1, params)->Err_0)
    } else if estimated(Method::GoodTuring, sentences, pair.0, pair.1, params) is Err {
        Some(estimated(Method::GoodTuring, sentences, pair.0, pair.1, params)->Err_0)
    } else if estimated(Method::KneserNey, sentences, pair.0, pair.1, params) is Err {
        Some(estimated(Method::KneserNey, sentences, pair.0, pair.1, params)->Err_0)
    } else {
        None
    }
}

/// The row holds, column by column, what each method estimates for `pair`.
#[verifier::opaque]
pub open spec fn row_agrees(
    row: Comparison,
    sentences: Seq<Seq<Word>>,
    pair: Bigram,
    params: Parameters,
) -> bool {
    &&& estimated(Method::Laplace, sentences, pair.0, pair.1, params) == Ok::<
        Quotient,
        SmoothingError,
    >(row.laplace@)
    &&& estimated(Method::Lidstone, sentences, pair.0, pair.1, params) == Ok::<
        Quotient,
        SmoothingError,
    >(row.lidstone@)
    &&& estimated(Method::AbsoluteDiscount, sentences, pair.0, pair.1, params) == Ok::<
        Quotient,
        SmoothingError,
    >(row.absolute_discount@)
    &&& estimated(Method::GoodTuring, sentences, pair.0, pair.1, params) == Ok::<
        Quotient,
        SmoothingError,
    >(row.good_turing@)
    &&& estimated(Method::KneserNey, sentences, pair.0, pair.1, params) == Ok::<
        Quotient,
        SmoothingError,
    >(row.kneser_ney@)
}

/// Estimates one bigram by every method.
pub fn compare(corpus: &Corpus, context: &str, word: &str, params: &Parameters) -> (row: Result<
    Comparison,
    SmoothingError,
>)
    ensures
        match row {
            Ok(r) => {
                &&& row_agrees(r, corpus.sentences(), (context@, word@), *params)
                &&& row_error(corpus.sentences(), (context@, word@), *params) is None
            },
            Err(e) => row_error(corpus.sentences(), (context@, word@), *params) == Some(e),
        },
{
    reveal(row_agrees);
    reveal(row_error);
    let laplace = match estimate(Method::Laplace, corpus, context, word, params) {
        Ok(p) => p,
        Err(e) => {
            return Err(e);
        },
    };
    let lidstone = match estimate(Method::Lidstone, corpus, context, word, params) {
        Ok(p) => p,
        Err(e) => {
            return Err(e);
        },
    };
    let absolute_discount = match estimate(Method::AbsoluteDiscount, corpus, context, word, params) {
        Ok(p) => p,
        Err(e) => {
            return Err(e);
        },
    };
    let good_turing = match estimate(Method::GoodTuring, corpus, context, word, params) {
        Ok(p) => p,
        Err(e) => {
            return Err(e);
        },
    };
    let kneser_ney = match estimate(Method::KneserNey, corpus, context, word, params) {
        Ok(p) => p,
        Err(e) => {
            return Err(e);
        },
    };
    Ok(Comparison { laplace, lidstone, absolute_discount, good_turing, kneser_ney })
}

/// Builds the comparison table: one row for each test bigram of the
/// corpus, in order. The first row that some method cannot estimate ends
/// the evaluation with that method's error.
pub fn evaluate(corpus: &Corpus, params: &Parameters) -> (table: Result<
    Vec<Comparison>,
    SmoothingError,
>)
    ensures
        match table {
            Ok(rows) => {
                &&& rows.len() == corpus.test_pairs().len()
                &&& forall|i: int|
                    0 <= i < rows.len() ==> row_agrees(
                        #[trigger] rows[i],
                        corpus.sentences(),
                        corpus.test_pairs()[i],
                        *params,
                    )
            },
            Err(e) => exists|i: int|
                {
                    &&& 0 <= i < corpus.test_pairs().len()
                    &&& row_error(corpus.sentences(), #[trigger] corpus.test_pairs()[i], *params)
                        == Some(e)
                    &&& forall|j: int|
                        0 <= j < i ==> row_error(
                            corpus.sentences(),
                            #[trigger] corpus.test_pairs()[j],
                            *params,
                        ) is None
                },
        },
{
    let pairs = corpus.test_bigrams();
    let mut rows: Vec<Comparison> = Vec::new();
    let mut i: usize = 0;
    while i < pairs.len()
        invariant
            i <= pairs.len(),
            pairs.deep_view() == corpus.test_pairs(),
            rows.len() == i,
            forall|j: int|
                0 <= j < i ==> row_agrees(
                    #[trigger] rows[j],
                    corpus.sentences(),
                    corpus.test_pairs()[j],
                    *params,
                ),
            forall|j: int|
                0 <= j < i ==> row_error(
                    corpus.sentences(),
                    #[trigger] corpus.test_pairs()[j],
                    *params,
                ) is None,
        decreases pairs.len() - i,
    {
        assert(corpus.test_pairs()[i as int] == (pairs[i as int].0@, pairs[i as int].1@));
        match compare(corpus, pairs[i].0.as_str(), pairs[i].1.as_str(), params) {
            Ok(row) => {
                rows.push(row);
            },
            Err(e) => {
                return Err(e);
            },
        }
        i += 1;
    }
    Ok(rows)
}

} // verus!
