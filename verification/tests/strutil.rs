use zfs2s3::strutil::{contains_str, find_last_char, parse_i64, starts_with_str, two_fields};

#[test]
fn parse_i64_accepts_signs_and_leading_zeros() {
    assert_eq!(parse_i64("123"), Some(123));
    assert_eq!(parse_i64("+123"), Some(123));
    assert_eq!(parse_i64("-123"), Some(-123));
    assert_eq!(parse_i64("00123"), Some(123));
    assert_eq!(parse_i64("-0"), Some(0));
    assert_eq!(parse_i64("9223372036854775807"), Some(i64::MAX));
    assert_eq!(parse_i64("-9223372036854775808"), Some(i64::MIN));
}

#[test]
fn parse_i64_rejects_malformed_text() {
    assert_eq!(parse_i64(""), None);
    assert_eq!(parse_i64("-"), None);
    assert_eq!(parse_i64("+"), None);
    assert_eq!(parse_i64("12a"), None);
    assert_eq!(parse_i64(" 12"), None);
    assert_eq!(parse_i64("9223372036854775808"), None);
    assert_eq!(parse_i64("99999999999999999999999999"), None);
}

#[test]
fn two_fields_splits_on_blanks_and_tabs() {
    assert_eq!(two_fields("a b"), Some(("a", "b")));
    assert_eq!(two_fields("  a \t b  "), Some(("a", "b")));
    assert_eq!(two_fields("a"), None);
    assert_eq!(two_fields("a b c"), None);
    assert_eq!(two_fields(""), None);
}

#[test]
fn substring_search_finds_infixes() {
    assert!(contains_str("pool/v1@auto-backup-incremental-x", "auto-backup-incremental-"));
    assert!(!contains_str("pool/v1@auto-backup-x", "auto-backup-incremental-"));
    assert!(contains_str("abc", ""));
    assert!(!contains_str("ab", "abc"));
}

#[test]
fn prefix_and_last_separator() {
    assert!(starts_with_str("pool/v1@x", "pool/v1@"));
    assert!(!starts_with_str("pool/v10@x", "pool/v1@"));
    assert_eq!(find_last_char("a/b/c", '/'), Some(3));
    assert_eq!(find_last_char("abc", '/'), None);
}
