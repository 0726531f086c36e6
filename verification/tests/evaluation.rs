use bigram_smoothing::data::corpus::Corpus;
use bigram_smoothing::evaluation::{compare, estimate, evaluate, Method, Parameters};
use bigram_smoothing::ratio::{Fraction, Ratio};
use bigram_smoothing::smoothing::error::SmoothingError;

fn settings() -> Parameters {
    Parameters { alpha: Fraction { num: 1, den: 2 }, discount: Fraction { num: 3, den: 4 } }
}

fn in_unit_interval(r: Ratio) -> bool {
    r.den > 0 && r.num <= r.den
}

const METHODS: [Method; 5] = [
    Method::Laplace,
    Method::Lidstone,
    Method::AbsoluteDiscount,
    Method::GoodTuring,
    Method::KneserNey,
];

#[test]
fn sample_estimates_for_a_seen_bigram() {
    let c = Corpus::new();
    let p = settings();
    // c = 2, c(h) = 8, V = 11, T(h) = 5, c(w) = 2, N = 23
    assert_eq!(estimate(Method::Laplace, &c, "the", "cat", &p), Ok(Ratio { num: 3, den: 19 }));
    assert_eq!(estimate(Method::Lidstone, &c, "the", "cat", &p), Ok(Ratio { num: 5, den: 27 }));
    assert_eq!(
        estimate(Method::AbsoluteDiscount, &c, "the", "cat", &p),
        Ok(Ratio { num: 5 * 23 + 3 * 5 * 2, den: 4 * 8 * 23 })
    );
    // (2 + 1) * N_3 over N_2 * N with N_2 = 3, N_3 = 1, N = 19
    assert_eq!(estimate(Method::GoodTuring, &c, "the", "cat", &p), Ok(Ratio { num: 3, den: 57 }));
    // one distinct predecessor of "cat" among 14 bigram types
    assert_eq!(
        estimate(Method::KneserNey, &c, "the", "cat", &p),
        Ok(Ratio { num: 5 * 14 + 3 * 5 * 1, den: 4 * 8 * 14 })
    );
}

#[test]
fn kneser_ney_context_that_starts_no_bigram() {
    let c = Corpus::new();
    assert_eq!(c.get_context_count("mouse"), 0);
    let p = estimate(Method::KneserNey, &c, "mouse", "ran", &settings()).unwrap();
    assert_eq!(
        p,
        Ratio {
            num: c.get_unique_predecessors_of_w2("ran") as u128,
            den: c.get_total_distinct_bigram_types() as u128,
        }
    );
    assert_eq!(p, Ratio { num: 1, den: 14 });
}

#[test]
fn absolute_discount_context_that_starts_no_bigram() {
    let c = Corpus::new();
    let p = estimate(Method::AbsoluteDiscount, &c, "mouse", "ran", &settings()).unwrap();
    assert_eq!(p, Ratio { num: 1, den: 23 });
}

#[test]
fn unseen_bigram_of_known_words() {
    let c = Corpus::new();
    let p = settings();
    assert_eq!(estimate(Method::Laplace, &c, "dog", "mat", &p), Ok(Ratio { num: 1, den: 13 }));
    // N_1 over N_0 * N
    assert_eq!(
        estimate(Method::GoodTuring, &c, "dog", "mat", &p),
        Ok(Ratio { num: 10, den: 107 * 19 })
    );
}

#[test]
fn unknown_words_are_counts_of_zero() {
    let c = Corpus::new();
    let p = settings();
    assert_eq!(estimate(Method::Laplace, &c, "bird", "flew", &p), Ok(Ratio { num: 1, den: 11 }));
    assert_eq!(estimate(Method::Lidstone, &c, "bird", "flew", &p), Ok(Ratio { num: 1, den: 11 }));
    assert_eq!(
        estimate(Method::AbsoluteDiscount, &c, "bird", "flew", &p),
        Ok(Ratio { num: 0, den: 23 })
    );
    assert_eq!(estimate(Method::KneserNey, &c, "bird", "flew", &p), Ok(Ratio { num: 0, den: 14 }));
}

#[test]
fn every_sample_estimate_is_a_probability() {
    let c = Corpus::new();
    let p = settings();
    let vocabulary = [
        "the", "cat", "sat", "on", "mat", "dog", "log", "chased", "ran", "after", "mouse", "bird",
    ];
    for h in vocabulary {
        for w in vocabulary {
            for m in METHODS {
                let r = estimate(m, &c, h, w, &p).unwrap();
                assert!(in_unit_interval(r), "{:?} {} {} {:?}", m, h, w, r);
            }
        }
    }
}

#[test]
fn table_has_a_row_for_each_test_bigram() {
    let c = Corpus::new();
    let p = settings();
    let rows = evaluate(&c, &p).unwrap();
    assert_eq!(rows.len(), 9);
    for (row, (h, w)) in rows.iter().zip(c.test_bigrams().iter()) {
        assert_eq!(Ok(*row), compare(&c, h, w, &p));
        assert_eq!(Ok(row.laplace), estimate(Method::Laplace, &c, h, w, &p));
        assert_eq!(Ok(row.lidstone), estimate(Method::Lidstone, &c, h, w, &p));
        assert_eq!(Ok(row.absolute_discount), estimate(Method::AbsoluteDiscount, &c, h, w, &p));
        assert_eq!(Ok(row.good_turing), estimate(Method::GoodTuring, &c, h, w, &p));
        assert_eq!(Ok(row.kneser_ney), estimate(Method::KneserNey, &c, h, w, &p));
    }
    assert_eq!(rows[0].laplace, Ratio { num: 3, den: 19 });
    assert_eq!(rows[7].kneser_ney, Ratio { num: 1, den: 14 });
    // the last pair holds words that the corpus lacks: every column is
    // filled all the same, from counts of zero
    assert_eq!(rows[8].laplace, Ratio { num: 1, den: 11 });
    assert_eq!(rows[8].lidstone, Ratio { num: 1, den: 11 });
    assert_eq!(rows[8].absolute_discount, Ratio { num: 0, den: 23 });
    assert_eq!(rows[8].good_turing, Ratio { num: 10, den: 107 * 19 });
    assert_eq!(rows[8].kneser_ney, Ratio { num: 0, den: 14 });
}

#[test]
fn empty_model_is_an_error_not_a_zero() {
    let c = Corpus::from_sentences(&vec![], vec![("a".to_string(), "b".to_string())]).unwrap();
    let p = settings();
    assert_eq!(estimate(Method::Laplace, &c, "a", "b", &p), Err(SmoothingError::EmptyVocabulary));
    assert_eq!(estimate(Method::Lidstone, &c, "a", "b", &p), Err(SmoothingError::EmptyVocabulary));
    assert_eq!(
        estimate(Method::AbsoluteDiscount, &c, "a", "b", &p),
        Err(SmoothingError::EmptyVocabulary)
    );
    assert_eq!(estimate(Method::KneserNey, &c, "a", "b", &p), Err(SmoothingError::EmptyModel));
    assert_eq!(estimate(Method::GoodTuring, &c, "a", "b", &p), Ok(Ratio { num: 0, den: 1 }));
    assert_eq!(evaluate(&c, &p), Err(SmoothingError::EmptyVocabulary));
}

#[test]
fn model_without_bigrams_stops_kneser_ney_only() {
    let c = Corpus::from_sentences(&vec![vec!["a".to_string()]], vec![]).unwrap();
    let p = settings();
    assert_eq!(estimate(Method::Laplace, &c, "a", "a", &p), Ok(Ratio { num: 1, den: 1 }));
    assert_eq!(estimate(Method::KneserNey, &c, "a", "a", &p), Err(SmoothingError::EmptyModel));
    // no test bigram, no row, no error
    assert_eq!(evaluate(&c, &p), Ok(vec![]));
}

#[test]
fn invalid_parameters_are_rejected_before_the_model_is_read() {
    let c = Corpus::from_sentences(&vec![], vec![]).unwrap();
    let bad = Parameters { alpha: Fraction { num: 0, den: 1 }, discount: Fraction { num: 1, den: 1 } };
    assert_eq!(estimate(Method::Lidstone, &c, "a", "b", &bad), Err(SmoothingError::InvalidAlpha));
    assert_eq!(
        estimate(Method::AbsoluteDiscount, &c, "a", "b", &bad),
        Err(SmoothingError::InvalidDiscount)
    );
    assert_eq!(estimate(Method::KneserNey, &c, "a", "b", &bad), Err(SmoothingError::InvalidDiscount));
    let sample = Corpus::new();
    assert_eq!(evaluate(&sample, &bad), Err(SmoothingError::InvalidAlpha));
    let bad_discount = Parameters { alpha: Fraction { num: 1, den: 2 }, discount: Fraction { num: -3, den: 4 } };
    assert_eq!(evaluate(&sample, &bad_discount), Err(SmoothingError::InvalidDiscount));
    // the estimators that take no parameter are not affected
    assert_eq!(
        estimate(Method::Laplace, &sample, "the", "cat", &bad),
        Ok(Ratio { num: 3, den: 19 })
    );
}

/// A small deterministic generator of pseudo-random numbers.
fn next(state: &mut u64) -> u64 {
    *state = state.wrapping_mul(6364136223846793005).wrapping_add(1442695040888963407);
    *state >> 33
}

#[test]
fn estimates_of_random_corpora_are_probabilities() {
    let vocabulary = ["a", "b", "c", "d", "e", "f"];
    let p = settings();
    let mut state: u64 = 2024;
    for _ in 0..40 {
        let mut sentences: Vec<Vec<String>> = Vec::new();
        let lines = 1 + next(&mut state) % 6;
        for _ in 0..lines {
            let length = next(&mut state) % 9;
            let size = 1 + next(&mut state) % 6;
            let line = (0..length)
                .map(|_| vocabulary[(next(&mut state) % size) as usize].to_string())
                .collect();
            sentences.push(line);
        }
        let c = Corpus::from_sentences(&sentences, vec![]).unwrap();
        for h in vocabulary {
            for w in vocabulary {
                for m in METHODS {
                    match estimate(m, &c, h, w, &p) {
                        Ok(r) => assert!(in_unit_interval(r), "{:?} {} {} {:?}", m, h, w, r),
                        Err(e) => assert!(
                            c.get_total_existing_bigrams() == 0,
                            "{:?} {} {} {:?}",
                            m,
                            h,
                            w,
                            e
                        ),
                    }
                }
            }
        }
        // the continuation counts of the vocabulary add up to the bigram types
        let mass: usize = vocabulary.iter().map(|w| c.get_unique_predecessors_of_w2(w)).sum();
        assert_eq!(mass, c.get_total_distinct_bigram_types());
        // and the frequency table accounts for every type and every occurrence
        let table = c.repetitions();
        assert_eq!(table.values().sum::<usize>(), c.get_total_distinct_bigram_types());
        assert_eq!(
            table.iter().map(|(r, n)| r * n).sum::<usize>(),
            c.get_total_existing_bigrams()
        );
    }
}
