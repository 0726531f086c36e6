use crate::ratio::{Fraction, Quotient, Ratio};
use crate::smoothing::error::{outcome, SmoothingError};
use crate::smoothing::laplace::laplace;
use vstd::prelude::*;

verus! {

/// The add-alpha estimate `(c(h,w) + alpha) / (c(h) + alpha * V)` for
/// `alpha = a / b`, with numerator and denominator both scaled by `b`.
pub open spec fn lidstone(
    bigram_count: nat,
    context_count: nat,
    vocab_size: nat,
    a: nat,
    b: nat,
) -> Quotient {
    Quotient { num: bigram_count * b + a, den: context_count * b + a * vocab_size }
}

/// What add-alpha smoothing gives: the estimate, or the error of an `alpha`
/// that is not greater than zero, or that of an empty vocabulary.
pub open spec fn lidstone_outcome(
    bigram_count: nat,
    context_count: nat,
    vocab_size: nat,
    alpha: Fraction,
) -> Result<Quotient, SmoothingError> {
    if !alpha.is_positive() {
        Err(SmoothingError::InvalidAlpha)
    } else if vocab_size == 0 {
        Err(SmoothingError::EmptyVocabulary)
    } else {
        Ok(lidstone(bigram_count, context_count, vocab_size, alpha.num as nat, alpha.den as nat))
    }
}

/// Add-alpha smoothing of a bigram probability.
pub fn lidstone_smooth(
    bigram_count: usize,
    context_count: usize,
    vocab_size: usize,
    alpha: Fraction,
) -> (p: Result<Ratio, SmoothingError>)
    ensures
        outcome(p) == lidstone_outcome(
            bigram_count as nat,
            context_count as nat,
            vocab_size as nat,
            alpha,
        ),
        p matches Ok(r) ==> r.den > 0,
{
    if !alpha.positive() {
        return Err(SmoothingError::InvalidAlpha);
    }
    if vocab_size == 0 {
        return Err(SmoothingError::EmptyVocabulary);
    }
    let a = alpha.num as u128;
    let b = alpha.den as u128;
    let c = bigram_count as u128;
    let ch = context_count as u128;
    let v = vocab_size as u128;
    assert(c * b <= 0xFFFF_FFFF_FFFF_FFFF * 0xFFFF_FFFF) by (nonlinear_arith)
        requires
            c <= 0xFFFF_FFFF_FFFF_FFFF,
            b <= 0xFFFF_FFFF,
    ;
    assert(ch * b <= 0xFFFF_FFFF_FFFF_FFFF * 0xFFFF_FFFF) by (nonlinear_arith)
        requires
            ch <= 0xFFFF_FFFF_FFFF_FFFF,
            b <= 0xFFFF_FFFF,
    ;
    assert(a * v <= 0xFFFF_FFFF * 0xFFFF_FFFF_FFFF_FFFF) by (nonlinear_arith)
        requires
            v <= 0xFFFF_FFFF_FFFF_FFFF,
            a <= 0xFFFF_FFFF,
    ;
    assert(a * v > 0) by (nonlinear_arith)
        requires
            a > 0,
            v > 0,
    ;
    Ok(Ratio { num: c * b + a, den: ch * b + a * v })
}

/// With a non-empty vocabulary and a positive `alpha` the add-alpha estimate
/// is never zero, and it is a probability whenever the bigram occurs no more
/// often than its context.
pub proof fn lemma_lidstone_is_probability(
    bigram_count: nat,
    context_count: nat,
    vocab_size: nat,
    a: nat,
    b: nat,
)
    requires
        vocab_size > 0,
        a > 0,
        b > 0,
        bigram_count <= context_count,
    ensures
        lidstone(bigram_count, context_count, vocab_size, a, b).is_probability(),
        !lidstone(bigram_count, context_count, vocab_size, a, b).is_zero(),
{
    assert(bigram_count * b <= context_count * b) by (nonlinear_arith)
        requires
            bigram_count <= context_count,
    ;
    assert(a <= a * vocab_size) by (nonlinear_arith)
        requires
            vocab_size >= 1,
    ;
}

/// A larger bigram count, with the other counts and `alpha` unchanged, gives
/// a strictly larger add-alpha estimate.
pub proof fn lemma_lidstone_increases(
    fewer: nat,
    more: nat,
    context_count: nat,
    vocab_size: nat,
    a: nat,
    b: nat,
)
    requires
        vocab_size > 0,
        a > 0,
        b > 0,
        fewer < more,
    ensures
        lidstone(fewer, context_count, vocab_size, a, b).less_than(
            lidstone(more, context_count, vocab_size, a, b),
        ),
{
    let den = context_count * b + a * vocab_size;
    assert(a * vocab_size > 0) by (nonlinear_arith)
        requires
            a > 0,
            vocab_size > 0,
    ;
    assert(context_count * b >= 0) by (nonlinear_arith);
    assert(fewer * b < more * b) by (nonlinear_arith)
        requires
            fewer < more,
            b > 0,
    ;
    assert((fewer * b + a) * den < (more * b + a) * den) by (nonlinear_arith)
        requires
            fewer * b < more * b,
            den > 0,
    ;
}

/// With `alpha` equal to one the add-alpha estimate is the add-one estimate.
pub proof fn lemma_lidstone_with_one_is_laplace(
    bigram_count: nat,
    context_count: nat,
    vocab_size: nat,
    a: nat,
)
    requires
        vocab_size > 0,
        a > 0,
    ensures
        lidstone(bigram_count, context_count, vocab_size, 1, 1) == laplace(
            bigram_count,
            context_count,
            vocab_size,
        ),
        lidstone(bigram_count, context_count, vocab_size, a, a).same_value(
            laplace(bigram_count, context_count, vocab_size),
        ),
{
    let one = laplace(bigram_count, context_count, vocab_size);
    let scaled = lidstone(bigram_count, context_count, vocab_size, a, a);
    assert(scaled.num == a * one.num) by (nonlinear_arith)
        requires
            scaled.num == bigram_count * a + a,
            one.num == bigram_count + 1,
    ;
    assert(scaled.den == a * one.den) by (nonlinear_arith)
        requires
            scaled.den == context_count * a + a * vocab_size,
            one.den == context_count + vocab_size,
    ;
    assert((a * one.num) * one.den == one.num * (a * one.den)) by (nonlinear_arith);
    assert(a * one.den > 0) by (nonlinear_arith)
        requires
            a > 0,
            one.den > 0,
    ;
}

} // verus!
