use pct::{
    encoded_len_idempotent, encoded_len_raw, find_first_byte, find_first_byte_idempotent,
    find_first_byte_raw, is_valid, is_valid_bytes, needs_encoding_idempotent, needs_encoding_raw,
    EncodeSet,
};

#[test]
fn find_first_byte_simple() {
    assert_eq!(find_first_byte(b"hello world", b' '), Some(5));
    assert_eq!(find_first_byte(b"hello", b' '), None);
    assert_eq!(find_first_byte(b"%20", b'%'), Some(0));
}

#[test]
fn find_first_byte_idempotent_clean() {
    let set = EncodeSet::component();
    assert_eq!(find_first_byte_idempotent(b"hello world", &set), Some(5));
    assert_eq!(find_first_byte_idempotent(b"hello", &set), None);
}

#[test]
fn find_first_byte_idempotent_preserves_pct() {
    let set = EncodeSet::component();
    assert_eq!(find_first_byte_idempotent(b"foo%20bar", &set), None);
}

#[test]
fn find_first_byte_idempotent_lowercase_pct() {
    let set = EncodeSet::component();
    assert_eq!(find_first_byte_idempotent(b"foo%2fbar", &set), Some(3));
}

#[test]
fn find_first_byte_idempotent_bare_pct() {
    let set = EncodeSet::component();
    assert_eq!(find_first_byte_idempotent(b"100%", &set), Some(3));
    assert_eq!(find_first_byte_idempotent(b"100% off", &set), Some(3));
}

#[test]
fn find_first_byte_raw_basic() {
    let set = EncodeSet::component();
    assert_eq!(find_first_byte_raw(b"hello", &set), None);
    assert_eq!(find_first_byte_raw(b"hello world", &set), Some(5));
    assert_eq!(find_first_byte_raw(b"foo%20bar", &set), Some(3));
}

#[test]
fn needs_encoding_raw_check() {
    let set = EncodeSet::component();
    assert!(!needs_encoding_raw(b"hello", &set));
    assert!(needs_encoding_raw(b"hello world", &set));
}

#[test]
fn needs_encoding_idempotent_check() {
    let set = EncodeSet::component();
    assert!(!needs_encoding_idempotent(b"hello", &set));
    assert!(!needs_encoding_idempotent(b"foo%20bar", &set));
    assert!(needs_encoding_idempotent(b"100%", &set));
    assert!(needs_encoding_idempotent(b"foo%2fbar", &set));
}

#[test]
fn encoded_len_raw_basic() {
    let comp = EncodeSet::component();
    let ctrl = EncodeSet::controls();
    assert_eq!(encoded_len_raw(b"hello", &comp, false), 5);
    assert_eq!(encoded_len_raw(b"hello world", &comp, false), 5 + 3 + 5);
    assert_eq!(encoded_len_raw(&[0xFF], &ctrl, false), 1);
    assert_eq!(encoded_len_raw(&[0xFF], &ctrl, true), 3);
    assert_eq!(encoded_len_raw(&[0xFF], &comp, false), 3);
    assert_eq!(encoded_len_raw(&[0xFF], &comp, true), 3);
}

#[test]
fn encoded_len_idempotent_preserves_pct() {
    let set = EncodeSet::component();
    assert_eq!(encoded_len_idempotent(b"foo%20bar", &set), 9);
    assert_eq!(encoded_len_idempotent(b"100%", &set), 6);
}

#[test]
fn is_valid_works() {
    assert!(is_valid("hello%20world"));
    assert!(is_valid("%C3%A9"));
    assert!(is_valid("no-encoding"));
    assert!(!is_valid("hello%GG"));
    assert!(!is_valid("hello%2"));
    assert!(!is_valid("hello%"));
}

#[test]
fn is_valid_bytes_works() {
    assert!(is_valid_bytes(b"%FF%00"));
    assert!(!is_valid_bytes(b"%G0"));
}

#[test]
fn encoded_len_matches_encoders() {
    let set = EncodeSet::component();
    let input = "a b%2fc% d%";
    assert_eq!(
        encoded_len_idempotent(input.as_bytes(), &set),
        pct::encode(input).len()
    );
    assert_eq!(
        encoded_len_raw(input.as_bytes(), &set, false),
        pct::encode_raw(input, &set).len()
    );
}

#[test]
fn find_first_byte_idempotent_with_custom_set() {
    // A set that holds an unreserved letter: the letter needs encoding.
    let set = EncodeSet::new().add(b'x');
    assert_eq!(find_first_byte_idempotent(b"ab%20x", &set), Some(5));
    assert_eq!(find_first_byte_raw(b"abx", &set), Some(2));
}
