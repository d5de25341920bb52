use local_pass::text::{decimal_text, is_blank, join_texts, lines_of, parse_usize, trim};

#[test]
fn numbers() {
    assert_eq!(decimal_text(0), "0");
    assert_eq!(decimal_text(1234567890), "1234567890");
    assert_eq!(parse_usize("42"), Some(42));
    assert_eq!(parse_usize("+7"), Some(7));
    assert_eq!(parse_usize("-7"), None);
    assert_eq!(parse_usize("+"), None);
    assert_eq!(parse_usize(""), None);
    assert_eq!(parse_usize("18446744073709551615"), Some(usize::MAX));
    assert_eq!(parse_usize("18446744073709551616"), None);
    assert_eq!(parse_usize("1 "), None);
}

#[test]
fn whitespace_and_lines() {
    assert!(is_blank(" \t\u{a0}\u{2003}"));
    assert!(!is_blank(" x "));
    assert_eq!(trim("\u{2028} x y \n"), "x y");
    assert_eq!(lines_of("a\r\nb\n\nc\r"), vec!["a", "b", "", "c\r"]);
    assert_eq!(lines_of("a\n"), vec!["a"]);
    assert!(lines_of("").is_empty());
    assert_eq!(join_texts(&["x".to_string(), "y".to_string()], ", "), "x, y");
}
