use hiho::{contains_chars, escape_csv, parse_number, unescape_csv};

#[test]
fn contains_chars_finds_runs() {
    assert!(contains_chars("hello world", "o w"));
    assert!(contains_chars("abc", ""));
    assert!(contains_chars("abc", "abc"));
    assert!(!contains_chars("abc", "abcd"));
    assert!(!contains_chars("abc", "ac"));
    assert!(contains_chars("пароль", "оль"));
}

#[test]
fn parse_number_reads_like_usize_from_str() {
    assert_eq!(parse_number("42"), Some(42));
    assert_eq!(parse_number("+7"), Some(7));
    assert_eq!(parse_number("007"), Some(7));
    assert_eq!(parse_number(""), None);
    assert_eq!(parse_number("+"), None);
    assert_eq!(parse_number("-1"), None);
    assert_eq!(parse_number("1a"), None);
    assert_eq!(parse_number(" 1"), None);
    assert_eq!(parse_number("18446744073709551615"), "18446744073709551615".parse::<usize>().ok());
    assert_eq!(parse_number("99999999999999999999999"), None);
}

#[test]
fn escape_csv_quotes_when_needed() {
    assert_eq!(escape_csv("plain"), "plain");
    assert_eq!(escape_csv("a,b"), "\"a,b\"");
    assert_eq!(escape_csv("say \"hi\""), "\"say \"\"hi\"\"\"");
    assert_eq!(escape_csv("two\nlines"), "\"two\nlines\"");
    assert_eq!(escape_csv(""), "");
}

#[test]
fn unescape_csv_reverses_quoting() {
    assert_eq!(unescape_csv("plain"), "plain");
    assert_eq!(unescape_csv("\"a,b\""), "a,b");
    assert_eq!(unescape_csv("\"say \"\"hi\"\"\""), "say \"hi\"");
    assert_eq!(unescape_csv("\"\""), "");
    assert_eq!(unescape_csv("\""), "\"");
    assert_eq!(unescape_csv("\"\"\"\"\"\""), "\"\"");
    for s in ["x", "a,b", "q\"q", "\"", ",\"\n"] {
        assert_eq!(unescape_csv(&escape_csv(s)), s);
    }
}
