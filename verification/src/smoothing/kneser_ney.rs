use crate::ratio::{Fraction, Quotient, Ratio};
use crate::smoothing::error::{outcome, representable, SmoothingError};
use crate::smoothing::interpolation::{
    context_agrees, interpolate, interpolated, lemma_interpolated_is_probability,
};
use vstd::prelude::*;

verus! {

/// The continuation probability `N1+(. w) / N1+(. .)` of a word.
pub open spec fn continuation(predecessors: nat, distinct_bigrams: nat) -> Quotient {
    Quotient { num: predecessors, den: distinct_bigrams }
}

/// The Kneser-Ney estimate for the discount `d / e`:
/// `max(c - D, 0) / c(h) + (D * N1+(h .) / c(h)) * P_cont(w)`,
/// and the continuation probability `P_cont(w)` alone where the context
/// never starts a bigram.
pub open spec fn kneser_ney_estimate(
    bigram_count: nat,
    context_count: nat,
    followers: nat,
    predecessors: nat,
    distinct_bigrams: nat,
    d: nat,
    e: nat,
) -> Quotient {
    if context_count == 0 {
        continuation(predecessors, distinct_bigrams)
    } else {
        interpolated(bigram_count, context_count, followers, predecessors, distinct_bigrams, d, e)
    }
}

/// What Kneser-Ney smoothing gives: the estimate, or the error of a
/// discount that is not strictly between zero and one, of a model without
/// bigrams, or of an estimate that does not fit in 128 bits.
pub open spec fn kneser_ney_outcome(
    bigram_count: nat,
    context_count: nat,
    followers: nat,
    predecessors: nat,
    distinct_bigrams: nat,
    discount: Fraction,
) -> Result<Quotient, SmoothingError> {
    if !discount.is_proper() {
        Err(SmoothingError::InvalidDiscount)
    } else if distinct_bigrams == 0 {
        Err(SmoothingError::EmptyModel)
    } else {
        representable(
            kneser_ney_estimate(
                bigram_count,
                context_count,
                followers,
                predecessors,
                distinct_bigrams,
                discount.num as nat,
                discount.den as nat,
            ),
        )
    }
}

/// Kneser-Ney smoothing of a bigram probability, backing off to the
/// continuation probability of the word.
///
/// With counts of at most 32 bits the estimate always fits.
pub fn kneser_ney(
    count_of_this_bigram: usize,
    bigrams_that_start_with_w1: usize,
    unique_followers_of_w1: usize,
    unique_predecessors_of_w2: usize,
    total_distinct_bigram_types: usize,
    absolute_discount: Fraction,
) -> (p: Result<Ratio, SmoothingError>)
    ensures
        outcome(p) == kneser_ney_outcome(
            count_of_this_bigram as nat,
            bigrams_that_start_with_w1 as nat,
            unique_followers_of_w1 as nat,
            unique_predecessors_of_w2 as nat,
            total_distinct_bigram_types as nat,
            absolute_discount,
        ),
        p matches Ok(r) ==> r.den > 0,
{
    if !absolute_discount.proper() {
        return Err(SmoothingError::InvalidDiscount);
    }
    if total_distinct_bigram_types == 0 {
        return Err(SmoothingError::EmptyModel);
    }
    if bigrams_that_start_with_w1 == 0 {
        return Ok(
            Ratio {
                num: unique_predecessors_of_w2 as u128,
                den: total_distinct_bigram_types as u128,
            },
        );
    }
    assert(absolute_discount.den * bigrams_that_start_with_w1 * total_distinct_bigram_types > 0)
        by (nonlinear_arith)
        requires
            absolute_discount.den > 0,
            bigrams_that_start_with_w1 > 0,
            total_distinct_bigram_types > 0,
    ;
    match interpolate(
        count_of_this_bigram,
        bigrams_that_start_with_w1,
        unique_followers_of_w1,
        unique_predecessors_of_w2,
        total_distinct_bigram_types,
        absolute_discount,
    ) {
        Some(r) => Ok(r),
        None => Err(SmoothingError::ModelTooLarge),
    }
}

/// For a context that never starts a bigram, the Kneser-Ney estimate is
/// exactly the continuation probability of the word.
pub proof fn lemma_kneser_ney_backs_off(
    bigram_count: nat,
    followers: nat,
    predecessors: nat,
    distinct_bigrams: nat,
    d: nat,
    e: nat,
)
    ensures
        kneser_ney_estimate(bigram_count, 0, followers, predecessors, distinct_bigrams, d, e)
            == continuation(predecessors, distinct_bigrams),
{
}

/// With a discount strictly between zero and one, a model that holds a
/// bigram and counts that agree with each other, the Kneser-Ney estimate is
/// a probability.
pub proof fn lemma_kneser_ney_is_probability(
    bigram_count: nat,
    context_count: nat,
    followers: nat,
    predecessors: nat,
    distinct_bigrams: nat,
    d: nat,
    e: nat,
)
    requires
        0 < d < e,
        distinct_bigrams > 0,
        predecessors <= distinct_bigrams,
        context_agrees(bigram_count, context_count, followers),
    ensures
        kneser_ney_estimate(
            bigram_count,
            context_count,
            followers,
            predecessors,
            distinct_bigrams,
            d,
            e,
        ).is_probability(),
{
    if context_count > 0 {
        lemma_interpolated_is_probability(
            bigram_count,
            context_count,
            followers,
            predecessors,
            distinct_bigrams,
            d,
            e,
        );
    }
}

} // verus!
