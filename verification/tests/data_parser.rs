use bigram_smoothing::utils::data_parser::{count_tokens, DataParser, TokenCounts};
use bigram_smoothing::utils::label::parse_label;
use bigram_smoothing::utils::tokenizer::create_string_tokens;
use std::collections::HashMap;

#[test]
fn labels_are_decimal_numerals() {
    assert_eq!(parse_label("1"), Some(1));
    assert_eq!(parse_label("0"), Some(0));
    assert_eq!(parse_label("+1"), Some(1));
    assert_eq!(parse_label("-1"), Some(-1));
    assert_eq!(parse_label("007"), Some(7));
    assert_eq!(parse_label("-0"), Some(0));
    assert_eq!(parse_label("2147483647"), Some(i32::MAX));
    assert_eq!(parse_label("-2147483648"), Some(i32::MIN));
    assert_eq!(parse_label("2147483648"), None);
    assert_eq!(parse_label("-2147483649"), None);
    assert_eq!(parse_label("99999999999999999999999999"), None);
    assert_eq!(parse_label(""), None);
    assert_eq!(parse_label("+"), None);
    assert_eq!(parse_label("-"), None);
    assert_eq!(parse_label(" 1"), None);
    assert_eq!(parse_label("1 "), None);
    assert_eq!(parse_label("1.0"), None);
    assert_eq!(parse_label("1_000"), None);
    assert_eq!(parse_label("--1"), None);
    assert_eq!(parse_label("1-"), None);
    assert_eq!(parse_label("label"), None);
    assert_eq!(parse_label("\u{0661}"), None);
}

#[test]
fn labels_as_the_standard_library_reads_them() {
    for text in ["12", "+12", "-12", "0012", "12a", "a12", "", "+", "-", "2147483647", "2147483648",
        "-2147483648", "-2147483649", "00000000000000000001", "4294967297", "１２"]
    {
        assert_eq!(parse_label(text), text.parse::<i32>().ok(), "{:?}", text);
    }
}

#[test]
fn counts_each_occurrence() {
    let mut counts: HashMap<u32, usize> = HashMap::new();
    count_tokens(&mut counts, &vec![5, 7, 5, 5]);
    assert_eq!(counts.len(), 2);
    assert_eq!(counts[&5], 3);
    assert_eq!(counts[&7], 1);
    count_tokens(&mut counts, &vec![7, 9]);
    assert_eq!(counts.len(), 3);
    assert_eq!(counts[&5], 3);
    assert_eq!(counts[&7], 2);
    assert_eq!(counts[&9], 1);
    count_tokens(&mut counts, &vec![]);
    assert_eq!(counts.len(), 3);
}

fn record(fields: &[&str]) -> Option<Vec<String>> {
    Some(fields.iter().map(|f| f.to_string()).collect())
}

fn counts(entries: &[(u32, usize)]) -> HashMap<u32, usize> {
    entries.iter().cloned().collect()
}

const HELLO: u32 = 31373;
const WORLD: u32 = 6894;
const THERE: u32 = 8117;

#[test]
fn rows_are_counted_by_class() {
    let rows = vec![record(&["1", "hello world"]), record(&["0", "hello there"])];
    let p = DataParser::from_rows(&rows).unwrap();
    assert_eq!(p.total_words, 4);
    assert_eq!(p.unique_words, 3);
    assert_eq!(p.ham_tokens, counts(&[(HELLO, 1), (WORLD, 1)]));
    assert_eq!(p.spam_tokens, counts(&[(HELLO, 1), (THERE, 1)]));
}

#[test]
fn only_label_one_is_ham() {
    let rows = vec![
        record(&["2", "hello"]),
        record(&["-1", "hello"]),
        record(&["+1", "world"]),
        record(&["01", "world"]),
        record(&["0", "there"]),
    ];
    let p = DataParser::from_rows(&rows).unwrap();
    assert_eq!(p.ham_tokens, counts(&[(WORLD, 2)]));
    assert_eq!(p.spam_tokens, counts(&[(HELLO, 2), (THERE, 1)]));
    assert_eq!(p.total_words, 5);
    assert_eq!(p.unique_words, 3);
}

#[test]
fn rows_that_say_nothing_are_passed_over() {
    let rows = vec![
        None,
        record(&["label", "email"]),
        record(&["label", "hello"]),
        record(&["spam", "hello"]),
        record(&["", "hello"]),
        record(&["1"]),
        record(&[]),
        record(&["3000000000", "hello"]),
        record(&["1", "hello world", "and more"]),
    ];
    let p = DataParser::from_rows(&rows).unwrap();
    assert_eq!(p.total_words, 2);
    assert_eq!(p.unique_words, 2);
    assert_eq!(p.ham_tokens, counts(&[(HELLO, 1), (WORLD, 1)]));
    assert!(p.spam_tokens.is_empty());
}

#[test]
fn no_rows_no_counts() {
    let p = DataParser::from_rows(&vec![]).unwrap();
    assert_eq!(p.total_words, 0);
    assert_eq!(p.unique_words, 0);
    assert!(p.ham_tokens.is_empty());
    assert!(p.spam_tokens.is_empty());
    let blank = DataParser::from_rows(&vec![record(&["1", "  "])]).unwrap();
    assert_eq!(blank.total_words, 0);
    assert!(blank.ham_tokens.is_empty());
}

#[test]
fn csv_document_is_read_after_its_header() {
    let p = DataParser::from_csv(b"label,email\n1,hello world\n0,hello there\n").unwrap();
    assert_eq!(p.total_words, 4);
    assert_eq!(p.unique_words, 3);
    assert_eq!(p.ham_tokens, counts(&[(HELLO, 1), (WORLD, 1)]));
    assert_eq!(p.spam_tokens, counts(&[(HELLO, 1), (THERE, 1)]));
}

#[test]
fn csv_first_record_is_always_the_header() {
    let p = DataParser::from_csv(b"1,hello world\n0,hello there\n").unwrap();
    assert_eq!(p.total_words, 2);
    assert!(p.ham_tokens.is_empty());
    assert_eq!(p.spam_tokens, counts(&[(HELLO, 1), (THERE, 1)]));
}

#[test]
fn csv_quoted_fields_and_bad_records() {
    let text = b"label,email\n1,\"hello, world\"\n0\nlabel,email\n0,\"hello\nthere\"\n";
    let p = DataParser::from_csv(text).unwrap();
    // the quoted comma stays in the email, the short record and the
    // repeated header are passed over, the quoted line break separates words
    let mut ham: HashMap<u32, usize> = HashMap::new();
    count_tokens(&mut ham, &create_string_tokens("hello, world"));
    assert_eq!(p.ham_tokens, ham);
    assert_eq!(p.ham_tokens.get(&WORLD), Some(&1));
    assert_eq!(p.spam_tokens, counts(&[(HELLO, 1), (THERE, 1)]));
    assert_eq!(p.total_words, p.ham_tokens.values().sum::<usize>() + 2);
}

#[test]
fn csv_empty_document() {
    let p = DataParser::from_csv(b"").unwrap();
    assert_eq!(p.total_words, 0);
    assert_eq!(p.unique_words, 0);
}

#[test]
fn records_are_counted_one_by_one() {
    let rows = vec![
        record(&["1", "hello world"]),
        None,
        record(&["label", "email"]),
        record(&["0", "hello there"]),
        record(&["1", "world"]),
    ];
    let mut running = TokenCounts::new();
    for row in &rows {
        running = running.add(row).unwrap();
    }
    let step_by_step = running.finish();
    let at_once = DataParser::from_rows(&rows).unwrap();
    assert_eq!(step_by_step.total_words, 5);
    assert_eq!(step_by_step.unique_words, 3);
    assert_eq!(step_by_step.ham_tokens, counts(&[(HELLO, 1), (WORLD, 2)]));
    assert_eq!(step_by_step.spam_tokens, counts(&[(HELLO, 1), (THERE, 1)]));
    assert_eq!(step_by_step.total_words, at_once.total_words);
    assert_eq!(step_by_step.unique_words, at_once.unique_words);
    assert_eq!(step_by_step.ham_tokens, at_once.ham_tokens);
    assert_eq!(step_by_step.spam_tokens, at_once.spam_tokens);
    let nothing = TokenCounts::new().finish();
    assert_eq!(nothing.total_words, 0);
    assert_eq!(nothing.unique_words, 0);
    assert!(nothing.ham_tokens.is_empty() && nothing.spam_tokens.is_empty());
}
