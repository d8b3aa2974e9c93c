use peer_ledger::scan::{contains_char, parse_unsigned, split_all, split_once_str, split_words, trim_str};

#[test]
fn trims_whitespace_on_both_sides() {
    assert_eq!(trim_str("  a b \t\n"), "a b");
    assert_eq!(trim_str(""), "");
    assert_eq!(trim_str(" \u{a0}x\u{2003}"), "x");
}

#[test]
fn splits_on_every_occurrence() {
    assert_eq!(split_all("a,b,,c", ","), vec!["a", "b", "", "c"]);
    assert_eq!(split_all("", ","), vec![""]);
    assert_eq!(split_all("a\r\nb\r\n", "\r\n"), vec!["a", "b", ""]);
    assert_eq!(split_all("aaa", "aa"), vec!["", "a"]);
}

#[test]
fn splits_once_at_first_occurrence() {
    assert_eq!(split_once_str("k=v=w", "="), Some(("k".to_string(), "v=w".to_string())));
    assert_eq!(split_once_str("kv", "="), None);
}

#[test]
fn splits_words() {
    assert_eq!(split_words("  GET  /x\tHTTP/1.1 "), vec!["GET", "/x", "HTTP/1.1"]);
    assert!(split_words(" \t ").is_empty());
}

#[test]
fn parses_unsigned_numbers() {
    assert_eq!(parse_unsigned("42", 100), Some(42));
    assert_eq!(parse_unsigned("+7", 100), Some(7));
    assert_eq!(parse_unsigned("007", 100), Some(7));
    assert_eq!(parse_unsigned("101", 100), None);
    assert_eq!(parse_unsigned("", 100), None);
    assert_eq!(parse_unsigned("+", 100), None);
    assert_eq!(parse_unsigned("-1", 100), None);
    assert_eq!(parse_unsigned("1a", 100), None);
    assert_eq!(parse_unsigned("18446744073709551615", u64::MAX), Some(u64::MAX));
    assert_eq!(parse_unsigned("18446744073709551616", u64::MAX), None);
    assert_eq!(parse_unsigned("4294967295", u32::MAX as u64), "4294967295".parse::<u32>().ok().map(u64::from));
}

#[test]
fn finds_characters() {
    assert!(contains_char("a:b", ':'));
    assert!(!contains_char("ab", ':'));
}

#[test]
fn whitespace_is_what_std_calls_whitespace() {
    for code in 0u32..0x3100 {
        if let Some(c) = char::from_u32(code) {
            let text = format!("{c}x{c}");
            let expected = text.trim().to_string();
            assert_eq!(trim_str(&text), expected, "code point {code:#x}");
        }
    }
}
