use rlgdesktop::text::{
    all_space, char_count, has_prefix, last_word_of, parse_i32, parse_year, str_equal,
};

#[test]
fn parse_year_reads_unsigned_numbers() {
    assert_eq!(parse_year("2001"), 2001);
    assert_eq!(parse_year("+2001"), 2001);
    assert_eq!(parse_year("4294967295"), 4294967295);
}

#[test]
fn parse_year_gives_zero_otherwise() {
    assert_eq!(parse_year(""), 0);
    assert_eq!(parse_year("+"), 0);
    assert_eq!(parse_year("12a"), 0);
    assert_eq!(parse_year(" 1999"), 0);
    assert_eq!(parse_year("-5"), 0);
    assert_eq!(parse_year("4294967296"), 0);
}

#[test]
fn blank_and_prefix_and_counts() {
    assert!(all_space(" \t\u{3000}"));
    assert!(all_space(""));
    assert!(!all_space(" x "));
    assert!(has_prefix("Acrobat Distiller", "Acrobat"));
    assert!(!has_prefix("Acro", "Acrobat"));
    assert_eq!(char_count("a, b, c", ','), 2);
    assert!(str_equal("epub", "epub"));
    assert!(!str_equal("epub", "EPUB"));
}

#[test]
fn parse_i32_follows_std() {
    let v = |s: &str| s.chars().collect::<Vec<char>>();
    assert_eq!(parse_i32(&v("-2147483648")), Some(i32::MIN));
    assert_eq!(parse_i32(&v("2147483647")), Some(i32::MAX));
    assert_eq!(parse_i32(&v("2147483648")), None);
    assert_eq!(parse_i32(&v("+7")), Some(7));
    assert_eq!(parse_i32(&v("-")), None);
    assert_eq!(parse_i32(&v("7x")), None);
}

#[test]
fn last_word_is_after_last_space() {
    assert_eq!(last_word_of("The Saga 12  "), Some(vec!['1', '2']));
    assert_eq!(last_word_of(" \t "), None);
    assert_eq!(last_word_of("one"), Some(vec!['o', 'n', 'e']));
}
