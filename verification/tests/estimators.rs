use bigram_smoothing::ratio::{Fraction, Ratio};
use bigram_smoothing::smoothing::absolute_discount::absolute_discount_smooth;
use bigram_smoothing::smoothing::error::SmoothingError;
use bigram_smoothing::smoothing::good_turing::good_turing;
use bigram_smoothing::smoothing::kneser_ney::kneser_ney;
use bigram_smoothing::smoothing::laplace::laplace_smooth;
use bigram_smoothing::smoothing::lidstone::lidstone_smooth;
use std::collections::HashMap;

fn value(r: Ratio) -> f64 {
    r.num as f64 / r.den as f64
}

fn half() -> Fraction {
    Fraction { num: 1, den: 2 }
}

fn three_quarters() -> Fraction {
    Fraction { num: 3, den: 4 }
}

fn table(entries: Vec<(usize, usize)>) -> HashMap<usize, usize> {
    let mut t = HashMap::new();
    for (r, n) in entries {
        t.insert(r, n);
    }
    t
}

#[test]
fn laplace_seen_bigram() {
    let p = laplace_smooth(2, 6, 10).unwrap();
    assert_eq!(p, Ratio { num: 3, den: 16 });
    assert_eq!(value(p), 0.1875);
}

#[test]
fn laplace_unseen_context_is_uniform() {
    let p = laplace_smooth(0, 0, 10);
    assert_eq!(p, Ok(Ratio { num: 1, den: 10 }));
}

#[test]
fn laplace_grows_with_the_bigram_count() {
    let mut last = laplace_smooth(0, 9, 4).unwrap();
    for c in 1..=9usize {
        let next = laplace_smooth(c, 9, 4).unwrap();
        assert!(last.num * next.den < next.num * last.den);
        last = next;
    }
}

#[test]
fn lidstone_seen_bigram() {
    let p = lidstone_smooth(2, 6, 10, half()).unwrap();
    assert_eq!(p, Ratio { num: 5, den: 22 });
    assert!((value(p) - 0.2273).abs() < 1e-4);
}

#[test]
fn lidstone_with_alpha_one_is_laplace() {
    let p = lidstone_smooth(2, 6, 10, Fraction { num: 1, den: 1 }).unwrap();
    assert_eq!(Ok(p), laplace_smooth(2, 6, 10));
}

#[test]
fn lidstone_grows_with_the_bigram_count() {
    let mut last = lidstone_smooth(0, 9, 4, half()).unwrap();
    for c in 1..=9usize {
        let next = lidstone_smooth(c, 9, 4, half()).unwrap();
        assert!(last.num * next.den < next.num * last.den);
        last = next;
    }
}

#[test]
fn lidstone_rejects_alpha_that_is_not_positive() {
    assert_eq!(
        lidstone_smooth(2, 6, 10, Fraction { num: 0, den: 1 }),
        Err(SmoothingError::InvalidAlpha)
    );
    assert_eq!(
        lidstone_smooth(2, 6, 10, Fraction { num: -1, den: 2 }),
        Err(SmoothingError::InvalidAlpha)
    );
    assert_eq!(
        lidstone_smooth(2, 6, 10, Fraction { num: 1, den: 0 }),
        Err(SmoothingError::InvalidAlpha)
    );
}

#[test]
fn absolute_discount_seen_bigram() {
    let p = absolute_discount_smooth(2, 6, 5, 2, 24, three_quarters()).unwrap();
    assert_eq!(p, Ratio { num: 150, den: 576 });
    assert!((value(p) - 0.2604).abs() < 1e-4);
}

#[test]
fn absolute_discount_backs_off_for_unseen_context() {
    let p = absolute_discount_smooth(0, 0, 0, 2, 24, three_quarters()).unwrap();
    assert_eq!(p, Ratio { num: 2, den: 24 });
}

#[test]
fn absolute_discount_backs_off_without_continuations() {
    let p = absolute_discount_smooth(0, 3, 0, 5, 24, three_quarters()).unwrap();
    assert_eq!(p, Ratio { num: 5, den: 24 });
}

#[test]
fn absolute_discount_floors_the_discounted_count() {
    // an unseen bigram after a seen context keeps only the back-off term
    let p = absolute_discount_smooth(0, 6, 5, 2, 24, three_quarters()).unwrap();
    assert_eq!(p, Ratio { num: 30, den: 576 });
}

#[test]
fn absolute_discount_rejects_discount_out_of_range() {
    for d in [
        Fraction { num: 0, den: 4 },
        Fraction { num: 4, den: 4 },
        Fraction { num: 5, den: 4 },
        Fraction { num: -1, den: 4 },
        Fraction { num: 1, den: 0 },
    ] {
        assert_eq!(
            absolute_discount_smooth(2, 6, 5, 2, 24, d),
            Err(SmoothingError::InvalidDiscount)
        );
    }
}

#[test]
fn kneser_ney_unseen_context_gives_continuation_probability() {
    let p = kneser_ney(0, 0, 0, 1, 14, three_quarters()).unwrap();
    assert_eq!(p, Ratio { num: 1, den: 14 });
}

#[test]
fn kneser_ney_seen_bigram() {
    // (2 * 4 - 3) * 14 + 3 * 5 * 1 over 4 * 8 * 14
    let p = kneser_ney(2, 8, 5, 1, 14, three_quarters()).unwrap();
    assert_eq!(p, Ratio { num: 85, den: 448 });
}

#[test]
fn kneser_ney_rejects_discount_out_of_range() {
    assert_eq!(
        kneser_ney(2, 8, 5, 1, 14, Fraction { num: 1, den: 1 }),
        Err(SmoothingError::InvalidDiscount)
    );
    assert_eq!(
        kneser_ney(0, 0, 0, 1, 14, Fraction { num: 0, den: 1 }),
        Err(SmoothingError::InvalidDiscount)
    );
}

#[test]
fn good_turing_unseen_bigram() {
    let t = table(vec![(1, 10), (2, 3), (3, 1)]);
    let p = good_turing(19, 0, &t, 107);
    assert_eq!(p, Ok(Ratio { num: 10, den: 107 * 19 }));
}

#[test]
fn good_turing_degenerate_cases_are_zero() {
    let zero = Ok(Ratio { num: 0, den: 1 });
    let t = table(vec![(1, 10), (2, 3)]);
    assert_eq!(good_turing(19, 0, &t, 0), zero);
    assert_eq!(good_turing(0, 0, &t, 107), zero);
    let none_once = table(vec![(2, 3)]);
    assert_eq!(good_turing(19, 0, &none_once, 107), zero);
    assert_eq!(value(good_turing(19, 0, &none_once, 107).unwrap()), 0.0);
    assert_eq!(good_turing(0, 0, &table(vec![]), 0), zero);
}

#[test]
fn good_turing_seen_bigram() {
    let t = table(vec![(1, 10), (2, 3), (3, 1)]);
    // (1 + 1) * N_2 over N_1 * N
    assert_eq!(good_turing(19, 1, &t, 107), Ok(Ratio { num: 6, den: 190 }));
    // (2 + 1) * N_3 over N_2 * N
    assert_eq!(good_turing(19, 2, &t, 107), Ok(Ratio { num: 3, den: 57 }));
}

#[test]
fn good_turing_falls_back_per_count() {
    let t = table(vec![(1, 10), (2, 3), (3, 1)]);
    // N_4 is missing: the raw relative frequency
    assert_eq!(good_turing(19, 3, &t, 107), Ok(Ratio { num: 3, den: 19 }));
    // N_5 is missing as well
    assert_eq!(good_turing(19, 5, &t, 107), Ok(Ratio { num: 5, den: 19 }));
    // the gap at 3 does not disable the estimate at 1
    assert_eq!(good_turing(19, 1, &t, 107), Ok(Ratio { num: 6, den: 190 }));
    // an entry of zero counts as missing
    let zero = table(vec![(1, 10), (2, 0)]);
    assert_eq!(good_turing(19, 1, &zero, 107), Ok(Ratio { num: 1, den: 19 }));
}

#[test]
fn good_turing_largest_count_has_no_successor() {
    let t = table(vec![(usize::MAX, 1)]);
    let p = good_turing(usize::MAX, usize::MAX, &t, 1);
    assert_eq!(p, Ok(Ratio { num: usize::MAX as u128, den: usize::MAX as u128 }));
}

#[test]
fn estimates_that_do_not_fit_are_rejected() {
    let t = table(vec![(1, 1)]);
    assert_eq!(good_turing(2, 0, &t, u128::MAX), Err(SmoothingError::ModelTooLarge));
    assert_eq!(
        good_turing(2, 0, &t, u128::MAX / 2),
        Ok(Ratio { num: 1, den: u128::MAX - 1 })
    );
    let big = u64::MAX as usize;
    if big as u64 == u64::MAX {
        assert_eq!(
            absolute_discount_smooth(big, big, big, big, big, three_quarters()),
            Err(SmoothingError::ModelTooLarge)
        );
        assert_eq!(
            kneser_ney(big, big, big, big, big, three_quarters()),
            Err(SmoothingError::ModelTooLarge)
        );
        // an invalid discount is reported first
        assert_eq!(
            kneser_ney(big, big, big, big, big, Fraction { num: 4, den: 4 }),
            Err(SmoothingError::InvalidDiscount)
        );
        // the back-off alone always fits
        assert_eq!(
            absolute_discount_smooth(big, 0, big, big, big, three_quarters()),
            Ok(Ratio { num: big as u128, den: big as u128 })
        );
    }
}

#[test]
fn counts_of_thirty_two_bits_always_fit() {
    let m = u32::MAX as usize;
    let d = Fraction { num: i32::MAX - 1, den: u32::MAX };
    let p = absolute_discount_smooth(m, m, m, m, m, d).unwrap();
    let e = u32::MAX as u128;
    let n = m as u128;
    let dn = (i32::MAX - 1) as u128;
    assert_eq!(p, Ratio { num: (n * e - dn) * n + dn * n * n, den: e * n * n });
    assert!(kneser_ney(m, m, m, m, m, d).is_ok());
}

#[test]
fn degenerate_models_are_errors() {
    assert_eq!(laplace_smooth(0, 0, 0), Err(SmoothingError::EmptyVocabulary));
    assert_eq!(laplace_smooth(2, 6, 0), Err(SmoothingError::EmptyVocabulary));
    assert_eq!(lidstone_smooth(0, 0, 0, half()), Err(SmoothingError::EmptyVocabulary));
    assert_eq!(
        absolute_discount_smooth(0, 0, 0, 0, 0, three_quarters()),
        Err(SmoothingError::EmptyVocabulary)
    );
    assert_eq!(kneser_ney(0, 0, 0, 0, 0, three_quarters()), Err(SmoothingError::EmptyModel));
    let t = table(vec![(1, 1)]);
    assert_eq!(good_turing(0, 1, &t, 3), Err(SmoothingError::EmptyModel));
}

#[test]
fn parameters_are_judged_before_the_model() {
    assert_eq!(
        lidstone_smooth(0, 0, 0, Fraction { num: 0, den: 1 }),
        Err(SmoothingError::InvalidAlpha)
    );
    assert_eq!(
        absolute_discount_smooth(0, 0, 0, 0, 0, Fraction { num: 1, den: 1 }),
        Err(SmoothingError::InvalidDiscount)
    );
    assert_eq!(
        kneser_ney(0, 0, 0, 0, 0, Fraction { num: 1, den: 1 }),
        Err(SmoothingError::InvalidDiscount)
    );
}

#[test]
fn fraction_ranges() {
    assert!(half().positive());
    assert!(half().proper());
    assert!(Fraction { num: 3, den: 2 }.positive());
    assert!(!Fraction { num: 3, den: 2 }.proper());
    assert!(!Fraction { num: 0, den: 2 }.positive());
    assert!(!Fraction { num: -3, den: 2 }.positive());
    assert!(!Fraction { num: 2, den: 2 }.proper());
    assert!(!Fraction { num: 1, den: 0 }.positive());
    assert!(!Fraction { num: 1, den: 0 }.proper());
}
