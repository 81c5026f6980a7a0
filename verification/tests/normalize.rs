use pct::{is_valid, normalize};
use std::borrow::Cow;

#[test]
fn normalize_noop() {
    let input = "hello%20world";
    let result = normalize(input);
    assert_eq!(result, "hello%20world");
    assert!(matches!(result, Cow::Borrowed(_)));
}

#[test]
fn normalize_uppercase_hex() {
    assert_eq!(normalize("%2f"), "%2F");
    assert_eq!(normalize("%2f%2F"), "%2F%2F");
}

#[test]
fn normalize_decode_unreserved() {
    assert_eq!(normalize("%7E"), "~");
    assert_eq!(normalize("%41%42%43"), "ABC");
    assert_eq!(normalize("%61%62%63"), "abc");
    assert_eq!(normalize("%30%31%32"), "012");
    assert_eq!(normalize("%2D"), "-");
    assert_eq!(normalize("%2E"), ".");
    assert_eq!(normalize("%5F"), "_");
}

#[test]
fn normalize_keep_reserved_encoded() {
    assert_eq!(normalize("%20"), "%20");
    assert_eq!(normalize("%2F"), "%2F");
    assert_eq!(normalize("%3F"), "%3F");
}

#[test]
fn is_valid_true() {
    assert!(is_valid("hello"));
    assert!(is_valid("hello%20world"));
    assert!(is_valid("%C3%A9"));
    assert!(is_valid("%FF%00"));
}

#[test]
fn is_valid_false() {
    assert!(!is_valid("hello%GG"));
    assert!(!is_valid("hello%2"));
    assert!(!is_valid("hello%"));
    assert!(!is_valid("%G0"));
}

#[test]
fn normalize_twice_on_valid_input() {
    for input in ["%7e%2f", "caf%c3%a9", "%41b%2D%20"] {
        let once = normalize(input).into_owned();
        let twice = normalize(&once).into_owned();
        assert_eq!(once, twice);
        assert!(is_valid(&once));
        assert_eq!(pct::decode(&once), pct::decode(input));
    }
}

#[test]
fn normalize_not_idempotent_on_invalid_input() {
    // A stray `%` can meet a decoded digit and form a new sequence.
    let once = normalize("%%341").into_owned();
    assert_eq!(once, "%41");
    assert_eq!(normalize(&once), "A");
}

#[test]
fn normalize_keeps_non_ascii() {
    assert_eq!(normalize("é%7e"), "é~");
}
