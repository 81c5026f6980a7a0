use pct::{encode, encode_bytes, encode_raw, encode_with, EncodeSet};
use std::borrow::Cow;

#[test]
fn encode_noop() {
    let input = "hello";
    let result = encode(input);
    assert_eq!(result, "hello");
    assert!(matches!(result, Cow::Borrowed(_)));
}

#[test]
fn encode_space() {
    assert_eq!(encode("hello world"), "hello%20world");
}

#[test]
fn encode_fixes_issue_503_bare_percent() {
    assert_eq!(encode("100%"), "100%25");
    assert_eq!(encode("50% off!"), "50%25%20off%21");
}

#[test]
fn encode_idempotent_skips_valid_pct() {
    assert_eq!(encode("foo%20bar"), "foo%20bar");
    assert_eq!(encode("a%2Fb"), "a%2Fb");
}

#[test]
fn encode_idempotent_normalises_hex_case() {
    assert_eq!(encode("foo%2fbar"), "foo%2Fbar");
}

#[test]
fn encode_idempotent_mixed() {
    assert_eq!(encode("100%25%20done"), "100%25%20done");
}

#[test]
fn encode_reserved_chars() {
    assert_eq!(encode("a/b?c#d"), "a%2Fb%3Fc%23d");
}

#[test]
fn encode_unreserved_preserved() {
    let input = "ABCxyz0123456789-._~";
    let result = encode(input);
    assert_eq!(result, input);
    assert!(matches!(result, Cow::Borrowed(_)));
}

#[test]
fn encode_raw_encodes_percent() {
    assert_eq!(
        encode_raw("foo%20bar", &EncodeSet::component()),
        "foo%2520bar"
    );
}

#[test]
fn encode_bytes_binary() {
    let data: &[u8] = &[0x00, 0x01, 0xFF];
    let set = EncodeSet::component();
    assert_eq!(encode_bytes(data, &set), "%00%01%FF");
}

#[test]
fn encode_bytes_forces_high_bytes() {
    let data: &[u8] = b"hello\xC0\x80";
    assert_eq!(encode_bytes(data, &EncodeSet::controls()), "hello%C0%80");
}

#[test]
fn encode_with_path_set() {
    assert_eq!(encode_with("a/b c", &EncodeSet::path()), "a/b%20c");
}

#[test]
fn encode_with_query_set() {
    assert_eq!(
        encode_with("key=val&x=1", &EncodeSet::query()),
        "key=val&x=1"
    );
}

#[test]
fn encode_utf8() {
    assert_eq!(encode("café"), "caf%C3%A9");
}

#[test]
fn encode_bytes_utf8_bytes() {
    let data = "café".as_bytes();
    assert_eq!(encode_bytes(data, &EncodeSet::component()), "caf%C3%A9");
}

#[test]
fn encode_with_controls_keeps_non_ascii() {
    // A set without high bytes copies whole UTF-8 characters.
    let r = encode_with("café\u{7}", &EncodeSet::controls());
    assert_eq!(r, "café%07");
}

#[test]
fn encode_raw_borrowed_when_clean() {
    let r = encode_raw("abc-._~", &EncodeSet::component());
    assert!(matches!(r, Cow::Borrowed(_)));
    let r = encode_raw("a b", &EncodeSet::controls());
    assert!(matches!(r, Cow::Borrowed(_)));
}

#[test]
fn encode_is_idempotent_on_examples() {
    for input in ["100% sure", "a%2fb c", "%%%", "%4", "x%ZZy", "日本 語"] {
        let once = encode(input).into_owned();
        let twice = encode(&once).into_owned();
        assert_eq!(once, twice);
        assert!(pct::is_valid(&once));
    }
}
