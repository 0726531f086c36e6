use crate::ratio::{Quotient, Ratio};
use crate::smoothing::error::{outcome, SmoothingError};
use vstd::prelude::*;

verus! {

/// The add-one estimate `(c(h,w) + 1) / (c(h) + V)`.
pub open spec fn laplace(bigram_count: nat, context_count: nat, vocab_size: nat) -> Quotient {
    Quotient { num: bigram_count + 1, den: context_count + vocab_size }
}

/// What add-one smoothing gives: the estimate, or the error of an empty
/// vocabulary. A context that was never seen is no error.
pub open spec fn laplace_outcome(
    bigram_count: nat,
    context_count: nat,
    vocab_size: nat,
) -> Result<Quotient, SmoothingError> {
    if vocab_size == 0 {
        Err(SmoothingError::EmptyVocabulary)
    } else {
        Ok(laplace(bigram_count, context_count, vocab_size))
    }
}

/// Add-one smoothing of a bigram probability.
pub fn laplace_smooth(bigram_count: usize, context_count: usize, vocab_size: usize) -> (p: Result<
    Ratio,
    SmoothingError,
>)
    ensures
        outcome(p) == laplace_outcome(
            bigram_count as nat,
            context_count as nat,
            vocab_size as nat,
        ),
        p matches Ok(r) ==> r.den > 0,
{
    if vocab_size == 0 {
        return Err(SmoothingError::EmptyVocabulary);
    }
    Ok(
        Ratio {
            num: bigram_count as u128 + 1,
            den: context_count as u128 + vocab_size as u128,
        },
    )
}

/// With a non-empty vocabulary the add-one estimate is never zero, and it is
/// a probability whenever the bigram occurs no more often than its context.
pub proof fn lemma_laplace_is_probability(bigram_count: nat, context_count: nat, vocab_size: nat)
    requires
        vocab_size > 0,
        bigram_count <= context_count,
    ensures
        laplace(bigram_count, context_count, vocab_size).is_probability(),
        !laplace(bigram_count, context_count, vocab_size).is_zero(),
{
}

/// A larger bigram count, with the other counts unchanged, gives a strictly
/// larger add-one estimate.
pub proof fn lemma_laplace_increases(fewer: nat, more: nat, context_count: nat, vocab_size: nat)
    requires
        vocab_size > 0,
        fewer < more,
    ensures
        laplace(fewer, context_count, vocab_size).less_than(
            laplace(more, context_count, vocab_size),
        ),
{
    let den = context_count + vocab_size;
    assert((fewer + 1) * den < (more + 1) * den) by (nonlinear_arith)
        requires
            fewer < more,
            den > 0,
    ;
}

} // verus!
