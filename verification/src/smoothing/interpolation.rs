use crate::ratio::{Fraction, Quotient, Ratio};
use vstd::prelude::*;

verus! {

/// The discounted count `max(c - D, 0)` for `D = d / e`, scaled by `e`.
pub open spec fn discounted(count: nat, d: nat, e: nat) -> nat {
    if count * e > d {
        (count * e - d) as nat
    } else {
        0
    }
}

/// The interpolated estimate
/// `max(c - D, 0) / c(h) + (D * T(h) / c(h)) * (back_num / back_den)`
/// for `D = d / e`, over the common denominator `e * c(h) * back_den`.
pub open spec fn interpolated(
    count: nat,
    context_count: nat,
    continuations: nat,
    back_num: nat,
    back_den: nat,
    d: nat,
    e: nat,
) -> Quotient {
    Quotient {
        num: discounted(count, d, e) * back_den + d * continuations * back_num,
        den: e * context_count * back_den,
    }
}

/// The counts of a bigram agree with those of its context: the context
/// starts at least as many bigram occurrences as it has distinct
/// continuations, and where the bigram itself occurs, it is one of those
/// continuations and its occurrences leave at least one occurrence for each
/// of the others.
pub open spec fn context_agrees(count: nat, context_count: nat, continuations: nat) -> bool {
    &&& continuations <= context_count
    &&& count > 0 ==> continuations > 0 && count + continuations <= context_count + 1
}

/// Computes the interpolated estimate, or `None` where its exact numerator
/// or denominator does not fit in 128 bits.
pub(crate) fn interpolate(
    count: usize,
    context_count: usize,
    continuations: usize,
    back_num: usize,
    back_den: usize,
    discount: Fraction,
) -> (r: Option<Ratio>)
    requires
        discount.is_proper(),
    ensures
        match r {
            Some(r) => r@ == interpolated(
                count as nat,
                context_count as nat,
                continuations as nat,
                back_num as nat,
                back_den as nat,
                discount.num as nat,
                discount.den as nat,
            ),
            None => !interpolated(
                count as nat,
                context_count as nat,
                continuations as nat,
                back_num as nat,
                back_den as nat,
                discount.num as nat,
                discount.den as nat,
            ).fits(),
        },
{
    let d = discount.num as u128;
    let e = discount.den as u128;
    let c = count as u128;
    let ch = context_count as u128;
    let t = continuations as u128;
    let bn = back_num as u128;
    let bd = back_den as u128;
    assert(c * e <= 0xFFFF_FFFF_FFFF_FFFF * 0xFFFF_FFFF) by (nonlinear_arith)
        requires
            c <= 0xFFFF_FFFF_FFFF_FFFF,
            e <= 0xFFFF_FFFF,
    ;
    assert(e * ch <= 0xFFFF_FFFF * 0xFFFF_FFFF_FFFF_FFFF) by (nonlinear_arith)
        requires
            ch <= 0xFFFF_FFFF_FFFF_FFFF,
            e <= 0xFFFF_FFFF,
    ;
    assert(d * t <= 0xFFFF_FFFF * 0xFFFF_FFFF_FFFF_FFFF) by (nonlinear_arith)
        requires
            t <= 0xFFFF_FFFF_FFFF_FFFF,
            d <= 0xFFFF_FFFF,
    ;
    let scaled = c * e;
    let direct = if scaled > d {
        scaled - d
    } else {
        0
    };
    let weight = d * t;
    assert(direct * bd >= 0 && weight * bn >= 0) by (nonlinear_arith)
        requires
            direct >= 0,
            bd >= 0,
            weight >= 0,
            bn >= 0,
    ;
    let kept = match direct.checked_mul(bd) {
        Some(product) => product,
        None => {
            return None;
        },
    };
    let backed = match weight.checked_mul(bn) {
        Some(product) => product,
        None => {
            return None;
        },
    };
    let num = match kept.checked_add(backed) {
        Some(sum) => sum,
        None => {
            return None;
        },
    };
    let den = match (e * ch).checked_mul(bd) {
        Some(product) => product,
        None => {
            return None;
        },
    };
    Some(Ratio { num, den })
}

/// With counts of at most 32 bits the interpolated estimate fits in 128 bits.
pub proof fn lemma_interpolated_fits(
    count: nat,
    context_count: nat,
    continuations: nat,
    back_num: nat,
    back_den: nat,
    d: nat,
    e: nat,
)
    requires
        count <= u32::MAX,
        context_count <= u32::MAX,
        continuations <= u32::MAX,
        back_num <= u32::MAX,
        back_den <= u32::MAX,
        d <= u32::MAX,
        e <= u32::MAX,
    ensures
        interpolated(count, context_count, continuations, back_num, back_den, d, e).fits(),
{
    let m: nat = 0xFFFF_FFFF;
    assert(count * e <= m * m) by (nonlinear_arith)
        requires
            count <= m,
            e <= m,
    ;
    assert(discounted(count, d, e) * back_den <= m * m * m) by (nonlinear_arith)
        requires
            discounted(count, d, e) <= m * m,
            back_den <= m,
    ;
    assert(d * continuations <= m * m) by (nonlinear_arith)
        requires
            d <= m,
            continuations <= m,
    ;
    assert(d * continuations * back_num <= m * m * m) by (nonlinear_arith)
        requires
            d * continuations <= m * m,
            back_num <= m,
    ;
    assert(e * context_count <= m * m) by (nonlinear_arith)
        requires
            e <= m,
            context_count <= m,
    ;
    assert(e * context_count * back_den <= m * m * m) by (nonlinear_arith)
        requires
            e * context_count <= m * m,
            back_den <= m,
    ;
    assert(m * m * m + m * m * m <= u128::MAX) by (nonlinear_arith)
        requires
            m == 0xFFFF_FFFF,
    ;
}

/// With a discount strictly between zero and one, a seen context, counts
/// that agree with the context, and a back-off term that is itself a
/// probability, the interpolated estimate is a probability.
pub proof fn lemma_interpolated_is_probability(
    count: nat,
    context_count: nat,
    continuations: nat,
    back_num: nat,
    back_den: nat,
    d: nat,
    e: nat,
)
    requires
        0 < d < e,
        context_count > 0,
        context_agrees(count, context_count, continuations),
        back_den > 0,
        back_num <= back_den,
    ensures
        interpolated(
            count,
            context_count,
            continuations,
            back_num,
            back_den,
            d,
            e,
        ).is_probability(),
{
    let direct = discounted(count, d, e);
    // the weight of the back-off term is at most what the discount took away
    assert(direct + d * continuations <= e * context_count) by {
        if count == 0 {
            assert(count * e == 0) by (nonlinear_arith)
                requires
                    count == 0,
            ;
            assert(d * continuations <= e * context_count) by (nonlinear_arith)
                requires
                    d < e,
                    continuations <= context_count,
            ;
        } else {
            assert(count * e >= e) by (nonlinear_arith)
                requires
                    count >= 1,
            ;
            let others = continuations - 1;
            assert(d * others <= e * others) by (nonlinear_arith)
                requires
                    d < e,
                    others >= 0,
            ;
            assert(count * e + e * others == e * (count + others)) by (nonlinear_arith);
            assert(e * (count + others) <= e * context_count) by (nonlinear_arith)
                requires
                    count + others <= context_count,
                    e > 0,
            ;
            assert(d * continuations == d * others + d) by (nonlinear_arith)
                requires
                    others == continuations - 1,
            ;
        }
    }
    assert(d * continuations * back_num <= d * continuations * back_den) by (nonlinear_arith)
        requires
            back_num <= back_den,
            d * continuations >= 0,
    ;
    assert(direct * back_den + d * continuations * back_den == (direct + d * continuations)
        * back_den) by (nonlinear_arith);
    assert((direct + d * continuations) * back_den <= (e * context_count) * back_den)
        by (nonlinear_arith)
        requires
            direct + d * continuations <= e * context_count,
            back_den > 0,
    ;
    assert(e * context_count * back_den > 0) by (nonlinear_arith)
        requires
            e > 0,
            context_count > 0,
            back_den > 0,
    ;
}

} // verus!
