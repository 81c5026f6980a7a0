use pct::{decode_form, encode_form, encode_form_bytes};
use std::borrow::Cow;

#[test]
fn form_encode_space_to_plus() {
    assert_eq!(encode_form("hello world"), "hello+world");
}

#[test]
fn form_encode_plus_to_pct() {
    assert_eq!(encode_form("a+b"), "a%2Bb");
}

#[test]
fn form_encode_special_chars() {
    assert_eq!(encode_form("key=val&x=1"), "key%3Dval%26x%3D1");
}

#[test]
fn form_decode_plus_to_space() {
    assert_eq!(decode_form("hello+world"), "hello world");
}

#[test]
fn form_decode_pct2b_to_plus() {
    assert_eq!(decode_form("a%2Bb"), "a+b");
}

#[test]
fn form_roundtrip() {
    let original = "hello world+test=foo&bar";
    let encoded = encode_form(original);
    let decoded = decode_form(&encoded);
    assert_eq!(decoded, original);
}

#[test]
fn form_decode_noop() {
    let input = "hello";
    let result = decode_form(input);
    assert!(matches!(result, Cow::Borrowed(_)));
}

#[test]
fn form_encode_bytes() {
    let data: &[u8] = b"hello\xC3\xA9";
    assert_eq!(encode_form_bytes(data), "hello%C3%A9");
}

#[test]
fn form_roundtrip_special_chars() {
    let original = "100% real + fresh & free";
    let encoded = encode_form(original);
    let decoded = decode_form(&encoded);
    assert_eq!(decoded, original);
}

#[test]
fn form_decode_stray_percent_and_invalid_utf8() {
    assert_eq!(decode_form("50%+off"), "50% off");
    assert_eq!(decode_form("a%FF+"), "a\u{FFFD} ");
}

#[test]
fn form_encode_bytes_binary() {
    assert_eq!(encode_form_bytes(&[0x00, 0x20, 0x2B, 0xFF]), "%00+%2B%FF");
}
