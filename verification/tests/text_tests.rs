use custom_redis::text::{
    contains_str, join_strs, parse_u64, parse_usize, split_str, split_whitespace_str, strip_quotes_str,
    trim_str, u64_to_string,
};

#[test]
fn trim_removes_unicode_white_space() {
    assert_eq!(trim_str("  \t hello world \r\n"), "hello world");
    assert_eq!(trim_str("\u{3000}x\u{a0}"), "x");
    assert_eq!(trim_str("   "), "");
    assert_eq!(trim_str(""), "");
}

#[test]
fn split_keeps_empty_pieces() {
    assert_eq!(split_str("a\tb\t\tc", '\t'), vec!["a", "b", "", "c"]);
    assert_eq!(split_str("", '\t'), vec![""]);
    assert_eq!(split_str("\t", '\t'), vec!["", ""]);
}

#[test]
fn split_whitespace_drops_empty_words() {
    assert_eq!(split_whitespace_str("  SET  key   value "), vec!["SET", "key", "value"]);
    assert!(split_whitespace_str(" \t ").is_empty());
}

#[test]
fn join_puts_separator_between() {
    let parts = vec!["a".to_string(), "b".to_string(), "c".to_string()];
    assert_eq!(join_strs(&parts, " "), "a b c");
    assert_eq!(join_strs(&[], ","), "");
    assert_eq!(join_strs(&["x".to_string()], ","), "x");
}

#[test]
fn decimal_text_of_numbers() {
    assert_eq!(u64_to_string(0), "0");
    assert_eq!(u64_to_string(1234567890), "1234567890");
    assert_eq!(u64_to_string(u64::MAX), "18446744073709551615");
}

#[test]
fn unsigned_parsing_follows_std() {
    assert_eq!(parse_u64("42"), Some(42));
    assert_eq!(parse_u64("+7"), Some(7));
    assert_eq!(parse_u64("0042"), Some(42));
    assert_eq!(parse_u64("-1"), None);
    assert_eq!(parse_u64("+"), None);
    assert_eq!(parse_u64(""), None);
    assert_eq!(parse_u64(" 1"), None);
    assert_eq!(parse_u64("18446744073709551615"), Some(u64::MAX));
    assert_eq!(parse_u64("18446744073709551616"), None);
    for s in ["5", "+5", "x", "99999999999999999999", "١"] {
        assert_eq!(parse_u64(s), s.parse::<u64>().ok());
        assert_eq!(parse_usize(s), s.parse::<usize>().ok());
    }
}

#[test]
fn decimal_text_parses_back() {
    for n in [0u64, 9, 10, 65535, u64::MAX] {
        assert_eq!(parse_u64(&u64_to_string(n)), Some(n));
    }
}

#[test]
fn substring_search() {
    assert!(contains_str("hello", "ell"));
    assert!(contains_str("hello", ""));
    assert!(!contains_str("hello", "hellos"));
    assert!(!contains_str("abc", "ac"));
}

#[test]
fn quotes_are_stripped_at_both_ends() {
    assert_eq!(strip_quotes_str("\"abc\""), "abc");
    assert_eq!(strip_quotes_str("\"\"a\"b\"\""), "a\"b");
    assert_eq!(strip_quotes_str("\"\""), "");
    assert_eq!(strip_quotes_str("12"), "12");
}
