use preference_splitting::text::{
    chars_of, parse_unsigned_chars, split_spaces, substring, text_is, token_spans, white_space,
};

#[test]
fn tokens_are_maximal_runs_between_white_space() {
    let cs = chars_of("  a bb\tc \u{a0}d");
    let spans = token_spans(&cs);
    assert_eq!(spans, vec![(2, 3), (4, 6), (7, 8), (10, 11)]);
}

#[test]
fn tokens_of_blank_line_are_none() {
    let cs = chars_of(" \t ");
    assert!(token_spans(&cs).is_empty());
    assert!(token_spans(&Vec::new()).is_empty());
}

#[test]
fn white_space_follows_unicode() {
    assert!(white_space(' '));
    assert!(white_space('\n'));
    assert!(white_space('\u{3000}'));
    assert!(!white_space('a'));
    assert!(!white_space('\u{200b}'));
}

#[test]
fn unsigned_numbers_parse_as_std_does() {
    let cases: Vec<(&str, u64, Option<u64>)> = vec![
        ("42", u32::MAX as u64, Some(42)),
        ("+42", u32::MAX as u64, Some(42)),
        ("007", u32::MAX as u64, Some(7)),
        ("4294967295", u32::MAX as u64, Some(4294967295)),
        ("4294967296", u32::MAX as u64, None),
        ("", u32::MAX as u64, None),
        ("+", u32::MAX as u64, None),
        ("-1", u32::MAX as u64, None),
        ("1.5", u32::MAX as u64, None),
        ("12a", u32::MAX as u64, None),
        ("18446744073709551615", u64::MAX, Some(u64::MAX)),
        ("18446744073709551616", u64::MAX, None),
    ];
    for (text, max, expected) in cases {
        let cs = chars_of(text);
        assert_eq!(parse_unsigned_chars(&cs, 0, cs.len(), max), expected, "{}", text);
        assert_eq!(text.parse::<u64>().ok().filter(|v| *v <= max), expected, "{}", text);
    }
}

#[test]
fn a_number_inside_a_line_parses_by_its_range() {
    let cs = chars_of("x 123 y");
    assert_eq!(parse_unsigned_chars(&cs, 2, 5, 1000), Some(123));
    assert_eq!(parse_unsigned_chars(&cs, 2, 5, 100), None);
}

#[test]
fn texts_compare_by_characters() {
    assert!(text_is("edge", "edge"));
    assert!(!text_is("edge", "edges"));
    assert!(!text_is("node", "edge"));
    assert!(text_is("", ""));
}

#[test]
fn substrings_count_characters() {
    assert_eq!(substring("h\u{e9}llo", 1, 3), "\u{e9}l");
    assert_eq!(substring("abc", 3, 3), "");
}

#[test]
fn single_spaces_split_into_pieces() {
    assert_eq!(split_spaces("a b"), vec!["a".to_string(), "b".to_string()]);
    assert_eq!(split_spaces("a  b"), vec!["a".to_string(), "".to_string(), "b".to_string()]);
    assert_eq!(split_spaces(""), vec!["".to_string()]);
    assert_eq!(split_spaces("a\tb "), vec!["a\tb".to_string(), "".to_string()]);
}

#[test]
fn decimal_text_reads_back_as_its_number() {
    for n in [0u64, 7, 10, 99, 4294967295] {
        let cs = chars_of(&n.to_string());
        assert_eq!(parse_unsigned_chars(&cs, 0, cs.len(), u32::MAX as u64), Some(n));
    }
}
