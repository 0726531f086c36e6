use crate::data::model::table_entry;
use crate::ratio::{Quotient, Ratio};
use crate::smoothing::error::{outcome, representable, SmoothingError};
use std::collections::HashMap;
use vstd::prelude::*;

verus! {

/// The Good-Turing estimate for a bigram seen `r` times, from the total
/// number `n` of bigram occurrences, the numbers `n1`, `here` and `next` of
/// distinct bigrams seen once, `r` times and `r + 1` times, and the number
/// `n0` of legal bigrams that were never seen.
///
/// An unseen bigram gets `(N_1 / N_0) / N`, or zero where any of the three
/// is zero. A seen bigram gets `((r + 1) * N_{r+1} / N_r) / N`, or the raw
/// relative frequency `r / N` where `N_r` or `N_{r+1}` is zero.
pub open spec fn good_turing_estimate(
    n: nat,
    r: nat,
    n1: nat,
    here: nat,
    next: nat,
    n0: nat,
) -> Quotient {
    if r == 0 {
        if n0 == 0 || n1 == 0 || n == 0 {
            Quotient { num: 0, den: 1 }
        } else {
            Quotient { num: n1, den: n0 * n }
        }
    } else {
        if here == 0 || next == 0 {
            Quotient { num: r, den: n }
        } else {
            Quotient { num: (r + 1) * next, den: here * n }
        }
    }
}

/// What Good-Turing smoothing gives: the estimate, or the error of a seen
/// bigram in a corpus without bigram occurrences, or of an estimate that
/// does not fit in 128 bits.
pub open spec fn good_turing_outcome(
    n: nat,
    r: nat,
    n1: nat,
    here: nat,
    next: nat,
    n0: nat,
) -> Result<Quotient, SmoothingError> {
    if r > 0 && n == 0 {
        Err(SmoothingError::EmptyModel)
    } else {
        representable(good_turing_estimate(n, r, n1, here, next, n0))
    }
}

/// Reads `N_r` from a frequency-of-frequencies table; zero where it has no entry.
fn lookup(table: &HashMap<usize, usize>, r: usize) -> (n: usize)
    ensures
        n == table_entry(table@, r as nat),
{
    broadcast use vstd::std_specs::hash::group_hash_axioms;

    match table.get(&r) {
        Some(v) => *v,
        None => 0,
    }
}

/// Good-Turing smoothing of a bigram probability.
///
/// `frequency_of_frequency` maps a count to the number of distinct bigrams
/// seen that often; a count without an entry stands for zero. With an
/// `unseen_bigram_types` of at most 64 bits the estimate always fits.
pub fn good_turing(
    total_bigram_tokens: usize,
    bigram_count: usize,
    frequency_of_frequency: &HashMap<usize, usize>,
    unseen_bigram_types: u128,
) -> (p: Result<Ratio, SmoothingError>)
    ensures
        outcome(p) == good_turing_outcome(
            total_bigram_tokens as nat,
            bigram_count as nat,
            table_entry(frequency_of_frequency@, 1),
            table_entry(frequency_of_frequency@, bigram_count as nat),
            table_entry(frequency_of_frequency@, bigram_count as nat + 1),
            unseen_bigram_types as nat,
        ),
        p matches Ok(r) ==> r.den > 0,
{
    if bigram_count > 0 && total_bigram_tokens == 0 {
        return Err(SmoothingError::EmptyModel);
    }
    let n = total_bigram_tokens as u128;
    if bigram_count == 0 {
        let n1 = lookup(frequency_of_frequency, 1);
        if unseen_bigram_types == 0 || n1 == 0 || total_bigram_tokens == 0 {
            return Ok(Ratio { num: 0, den: 1 });
        }
        assert(unseen_bigram_types * n > 0) by (nonlinear_arith)
            requires
                unseen_bigram_types > 0,
                n > 0,
        ;
        return match unseen_bigram_types.checked_mul(n) {
            Some(den) => Ok(Ratio { num: n1 as u128, den }),
            None => Err(SmoothingError::ModelTooLarge),
        };
    }
    let here = lookup(frequency_of_frequency, bigram_count);
    let next = if bigram_count < usize::MAX {
        lookup(frequency_of_frequency, bigram_count + 1)
    } else {
        0
    };
    if here == 0 || next == 0 {
        return Ok(Ratio { num: bigram_count as u128, den: n });
    }
    let r1 = bigram_count as u128 + 1;
    let next = next as u128;
    let here = here as u128;
    assert(r1 * next <= 0x1_0000_0000_0000_0000 * 0xFFFF_FFFF_FFFF_FFFF) by (nonlinear_arith)
        requires
            r1 <= 0x1_0000_0000_0000_0000,
            next <= 0xFFFF_FFFF_FFFF_FFFF,
    ;
    assert(here * n <= 0xFFFF_FFFF_FFFF_FFFF * 0xFFFF_FFFF_FFFF_FFFF) by (nonlinear_arith)
        requires
            here <= 0xFFFF_FFFF_FFFF_FFFF,
            n <= 0xFFFF_FFFF_FFFF_FFFF,
    ;
    assert(here * n > 0) by (nonlinear_arith)
        requires
            here > 0,
            n > 0,
    ;
    Ok(Ratio { num: r1 * next, den: here * n })
}

/// For an unseen bigram the Good-Turing estimate is exactly zero where no
/// legal bigram is unseen, no bigram was seen exactly once, or the corpus
/// holds no bigram at all.
pub proof fn lemma_good_turing_degenerate(n: nat, n1: nat, here: nat, next: nat, n0: nat)
    requires
        n0 == 0 || n1 == 0 || n == 0,
    ensures
        good_turing_estimate(n, 0, n1, here, next, n0) == (Quotient { num: 0, den: 1 }),
        good_turing_estimate(n, 0, n1, here, next, n0).is_zero(),
{
}

/// Where the bigram occurs no more often than the corpus has bigram
/// occurrences, and neither the bigrams seen once nor those seen `r + 1`
/// times account for more occurrences than the corpus has, the Good-Turing
/// estimate is a probability.
pub proof fn lemma_good_turing_is_probability(
    n: nat,
    r: nat,
    n1: nat,
    here: nat,
    next: nat,
    n0: nat,
)
    requires
        r <= n,
        r > 0 ==> n > 0,
        n1 <= n,
        (r + 1) * next <= n,
    ensures
        good_turing_estimate(n, r, n1, here, next, n0).is_probability(),
{
    if r == 0 {
        if !(n0 == 0 || n1 == 0 || n == 0) {
            assert(n <= n0 * n) by (nonlinear_arith)
                requires
                    n0 >= 1,
            ;
        }
    } else {
        if !(here == 0 || next == 0) {
            assert(n <= here * n) by (nonlinear_arith)
                requires
                    here >= 1,
            ;
        }
    }
}

} // verus!
