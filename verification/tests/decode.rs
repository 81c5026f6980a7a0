use pct::{decode, decode_bytes, decode_passthrough, decode_strict, DecodeError};
use std::borrow::Cow;

#[test]
fn decode_noop() {
    let input = "hello";
    let result = decode(input);
    assert_eq!(result, "hello");
    assert!(matches!(result, Cow::Borrowed(_)));
}

#[test]
fn decode_space() {
    assert_eq!(decode("hello%20world"), "hello world");
}

#[test]
fn decode_utf8() {
    assert_eq!(decode("caf%C3%A9"), "café");
}

#[test]
fn decode_strict_valid() {
    assert_eq!(decode_strict("hello%20world").unwrap(), "hello world");
}

#[test]
fn decode_strict_invalid_hex() {
    assert!(matches!(
        decode_strict("hello%GG"),
        Err(DecodeError::InvalidHex { .. })
    ));
}

#[test]
fn decode_strict_truncated() {
    assert!(matches!(
        decode_strict("hello%2"),
        Err(DecodeError::TruncatedSequence { .. })
    ));
}

#[test]
fn decode_passthrough_invalid() {
    assert_eq!(decode_passthrough("50%GG"), "50%GG");
}

#[test]
fn decode_passthrough_valid() {
    assert_eq!(decode_passthrough("100%25"), "100%");
}

#[test]
fn decode_bytes_raw() {
    let result = decode_bytes("hello%20world");
    assert_eq!(&*result, b"hello world");
}

#[test]
fn decode_bytes_noop() {
    let result = decode_bytes("hello");
    assert!(matches!(result, Cow::Borrowed(_)));
}

#[test]
fn decode_lossy_invalid_sequence() {
    let result = decode("test%GG");
    assert!(result.contains("test"));
}

#[test]
fn decode_strict_error_positions() {
    assert_eq!(
        decode_strict("hello%GG"),
        Err(DecodeError::InvalidHex { position: 5 })
    );
    assert_eq!(
        decode_strict("hello%2"),
        Err(DecodeError::TruncatedSequence { position: 5 })
    );
    assert_eq!(
        decode_strict("ab%C3"),
        Err(DecodeError::InvalidUtf8 { position: 2 })
    );
    assert_eq!(
        decode_strict("%41%FF%42"),
        Err(DecodeError::InvalidUtf8 { position: 1 })
    );
}

#[test]
fn decode_strict_borrowed_when_no_percent() {
    assert!(matches!(decode_strict("plain"), Ok(Cow::Borrowed(_))));
}

#[test]
fn decode_lossy_replaces_invalid_utf8() {
    assert_eq!(decode("a%FFb"), "a\u{FFFD}b");
    assert_eq!(decode_passthrough("a%C3"), "a\u{FFFD}");
    assert_eq!(&*decode_bytes("a%FF%zz"), b"a\xFF%zz");
}

#[test]
fn decode_error_messages() {
    assert_eq!(
        DecodeError::InvalidHex { position: 5 }.message(),
        "invalid percent-encoded hex at byte position 5"
    );
    assert_eq!(
        DecodeError::TruncatedSequence { position: 12 }.message(),
        "truncated percent-encoded sequence at byte position 12"
    );
    assert_eq!(
        DecodeError::InvalidUtf8 { position: 0 }.message(),
        "decoded bytes are not valid UTF-8 near byte position 0"
    );
}

#[test]
fn decode_replaces_stray_percent() {
    assert_eq!(decode("test%GG"), "test\u{FFFD}GG");
    assert_eq!(decode("hello%2"), "hello\u{FFFD}2");
    assert_eq!(decode("50%"), "50\u{FFFD}");
    assert_eq!(decode_passthrough("50%"), "50%");
    assert_eq!(&*decode_bytes("50%"), b"50%");
}

#[test]
fn decode_replaces_each_maximal_ill_formed_subpart() {
    assert_eq!(decode("%F0%90%80A"), "\u{FFFD}A");
    assert_eq!(decode("%ED%A0%80"), "\u{FFFD}\u{FFFD}\u{FFFD}");
    assert_eq!(decode("%C0%AF"), "\u{FFFD}\u{FFFD}");
    assert_eq!(decode("%E2%82"), "\u{FFFD}");
    assert_eq!(decode("%C3%28"), "\u{FFFD}(");
    assert_eq!(decode("%F4%90%80%80"), "\u{FFFD}\u{FFFD}\u{FFFD}\u{FFFD}");
    assert_eq!(decode("a%E0%A0"), "a\u{FFFD}");
}
