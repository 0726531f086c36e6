use crate::ratio::{Fraction, Quotient, Ratio};
use crate::smoothing::error::{outcome, representable, SmoothingError};
use crate::smoothing::interpolation::{
    context_agrees, interpolate, interpolated, lemma_interpolated_is_probability,
};
use vstd::prelude::*;

verus! {

/// The absolute-discount estimate for the discount `d / e`:
/// `max(c - D, 0) / c(h) + (D * T(h) / c(h)) * (c(w) / N)`,
/// and the unigram probability `c(w) / N` alone where the context was never
/// seen or has no continuations.
pub open spec fn absolute_discount(
    bigram_count: nat,
    context_count: nat,
    continuations: nat,
    unigram_count: nat,
    total_unigram_tokens: nat,
    d: nat,
    e: nat,
) -> Quotient {
    if context_count == 0 || continuations == 0 {
        Quotient { num: unigram_count, den: total_unigram_tokens }
    } else {
        interpolated(
            bigram_count,
            context_count,
            continuations,
            unigram_count,
            total_unigram_tokens,
            d,
            e,
        )
    }
}

/// What absolute discounting gives: the estimate, or the error of a
/// discount that is not strictly between zero and one, of a corpus without
/// tokens, or of an estimate that does not fit in 128 bits.
pub open spec fn absolute_discount_outcome(
    bigram_count: nat,
    context_count: nat,
    continuations: nat,
    unigram_count: nat,
    total_unigram_tokens: nat,
    discount: Fraction,
) -> Result<Quotient, SmoothingError> {
    if !discount.is_proper() {
        Err(SmoothingError::InvalidDiscount)
    } else if total_unigram_tokens == 0 {
        Err(SmoothingError::EmptyVocabulary)
    } else {
        representable(
            absolute_discount(
                bigram_count,
                context_count,
                continuations,
                unigram_count,
                total_unigram_tokens,
                discount.num as nat,
                discount.den as nat,
            ),
        )
    }
}

/// Absolute-discount smoothing of a bigram probability, backing off to the
/// unigram probability of the word.
///
/// With counts of at most 32 bits the estimate always fits.
pub fn absolute_discount_smooth(
    bigram_count: usize,
    context_count: usize,
    num_unique_continuations: usize,
    unigram_count_w: usize,
    total_unigram_tokens: usize,
    discount: Fraction,
) -> (p: Result<Ratio, SmoothingError>)
    ensures
        outcome(p) == absolute_discount_outcome(
            bigram_count as nat,
            context_count as nat,
            num_unique_continuations as nat,
            unigram_count_w as nat,
            total_unigram_tokens as nat,
            discount,
        ),
        p matches Ok(r) ==> r.den > 0,
{
    if !discount.proper() {
        return Err(SmoothingError::InvalidDiscount);
    }
    if total_unigram_tokens == 0 {
        return Err(SmoothingError::EmptyVocabulary);
    }
    if context_count == 0 || num_unique_continuations == 0 {
        return Ok(Ratio { num: unigram_count_w as u128, den: total_unigram_tokens as u128 });
    }
    assert(discount.den * context_count * total_unigram_tokens > 0) by (nonlinear_arith)
        requires
            discount.den > 0,
            context_count > 0,
            total_unigram_tokens > 0,
    ;
    match interpolate(
        bigram_count,
        context_count,
        num_unique_continuations,
        unigram_count_w,
        total_unigram_tokens,
        discount,
    ) {
        Some(r) => Ok(r),
        None => Err(SmoothingError::ModelTooLarge),
    }
}

/// For a context that was never seen, the absolute-discount estimate is
/// exactly the unigram probability of the word.
pub proof fn lemma_absolute_discount_backs_off(
    bigram_count: nat,
    continuations: nat,
    unigram_count: nat,
    total_unigram_tokens: nat,
    d: nat,
    e: nat,
)
    ensures
        absolute_discount(
            bigram_count,
            0,
            continuations,
            unigram_count,
            total_unigram_tokens,
            d,
            e,
        ) == (Quotient { num: unigram_count, den: total_unigram_tokens }),
{
}

/// With a discount strictly between zero and one, a non-empty corpus and
/// counts that agree with each other, the absolute-discount estimate is a
/// probability.
pub proof fn lemma_absolute_discount_is_probability(
    bigram_count: nat,
    context_count: nat,
    continuations: nat,
    unigram_count: nat,
    total_unigram_tokens: nat,
    d: nat,
    e: nat,
)
    requires
        0 < d < e,
        total_unigram_tokens > 0,
        unigram_count <= total_unigram_tokens,
        context_agrees(bigram_count, context_count, continuations),
    ensures
        absolute_discount(
            bigram_count,
            context_count,
            continuations,
            unigram_count,
            total_unigram_tokens,
            d,
            e,
        ).is_probability(),
{
    if context_count > 0 && continuations > 0 {
        lemma_interpolated_is_probability(
            bigram_count,
            context_count,
            continuations,
            unigram_count,
            total_unigram_tokens,
            d,
            e,
        );
    }
}

} // verus!
