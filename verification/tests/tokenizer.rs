use bigram_smoothing::utils::tokenizer::{
    create_string_tokens, join_tokens, separates, split_whitespace,
};

#[test]
fn splits_on_runs_of_whitespace() {
    assert_eq!(split_whitespace("the cat  sat"), vec!["the", "cat", "sat"]);
    assert_eq!(split_whitespace("  lead and trail \t\n"), vec!["lead", "and", "trail"]);
    assert_eq!(split_whitespace(""), Vec::<String>::new());
    assert_eq!(split_whitespace(" \t "), Vec::<String>::new());
    assert_eq!(split_whitespace("one"), vec!["one"]);
}

#[test]
fn splits_as_the_standard_library_does() {
    let texts = [
        "a\u{00A0}b\u{2003}c\u{3000}d",
        "x\u{0085}y\u{1680}z\u{2028}w\u{2029}v\u{202F}u\u{205F}t",
        "caf\u{00E9} na\u{00EF}ve \u{4F60}\u{597D}",
        "tab\tseparated\u{000B}vertical\u{000C}feed\rreturn",
        "zero\u{200B}width is no separator",
    ];
    for text in texts {
        let expected: Vec<String> = text.split_whitespace().map(|w| w.to_string()).collect();
        assert_eq!(split_whitespace(text), expected);
    }
}

#[test]
fn separators_are_the_white_space_characters() {
    for code in 0u32..=0x10FFFF {
        if let Some(c) = char::from_u32(code) {
            assert_eq!(separates(c), c.is_whitespace(), "U+{:04X}", code);
        }
    }
}

#[test]
fn separator_splits_a_text_in_two() {
    let first = " alpha beta";
    let second = "gamma  delta ";
    let mut expected = split_whitespace(first);
    expected.extend(split_whitespace(second));
    for c in [' ', '\t', '\n', '\u{00A0}', '\u{3000}'] {
        let whole = format!("{}{}{}", first, c, second);
        assert_eq!(split_whitespace(&whole), expected);
    }
    assert_eq!(split_whitespace("unbroken"), vec!["unbroken"]);
}

#[test]
fn joins_parts_in_order() {
    assert_eq!(join_tokens(&vec![vec![1, 2], vec![], vec![3], vec![4, 5, 6]]), vec![1, 2, 3, 4, 5, 6]);
    assert_eq!(join_tokens(&vec![]), Vec::<u32>::new());
}

#[test]
fn words_are_encoded_one_by_one() {
    assert_eq!(create_string_tokens("hello world"), vec![31373, 6894]);
    assert_eq!(create_string_tokens("  hello \t world\n"), vec![31373, 6894]);
    assert_eq!(create_string_tokens("world hello hello"), vec![6894, 31373, 31373]);
    assert_eq!(create_string_tokens(""), Vec::<u32>::new());
    assert_eq!(create_string_tokens(" \n "), Vec::<u32>::new());
}

#[test]
fn long_words_and_special_tokens() {
    assert_eq!(
        create_string_tokens("unbelievable <|endoftext|>"),
        vec![403, 6667, 11203, 540, 50256]
    );
}

#[test]
fn tokens_of_a_text_are_those_of_its_words() {
    let text = "the quick brown fox, they said; it's 42 o'clock";
    let mut expected: Vec<u32> = Vec::new();
    for word in split_whitespace(text) {
        expected.extend(create_string_tokens(&word));
    }
    assert_eq!(create_string_tokens(text), expected);
}
