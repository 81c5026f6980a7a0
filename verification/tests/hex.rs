use pct::{decode_hex_pair, hex_val, is_hex, is_hex_lower, HEX_LOWER, HEX_UPPER};

#[test]
fn hex_upper_table() {
    assert_eq!(HEX_UPPER[0], b'0');
    assert_eq!(HEX_UPPER[10], b'A');
    assert_eq!(HEX_UPPER[15], b'F');
}

#[test]
fn hex_lower_table() {
    assert_eq!(HEX_LOWER[10], b'a');
    assert_eq!(HEX_LOWER[15], b'f');
}

#[test]
fn is_hex_digits() {
    assert!(is_hex(b'0'));
    assert!(is_hex(b'9'));
    assert!(is_hex(b'a'));
    assert!(is_hex(b'f'));
    assert!(is_hex(b'A'));
    assert!(is_hex(b'F'));
    assert!(!is_hex(b'g'));
    assert!(!is_hex(b'G'));
    assert!(!is_hex(b' '));
    assert!(!is_hex(b'%'));
}

#[test]
fn hex_val_correct() {
    assert_eq!(hex_val(b'0'), 0);
    assert_eq!(hex_val(b'9'), 9);
    assert_eq!(hex_val(b'a'), 10);
    assert_eq!(hex_val(b'f'), 15);
    assert_eq!(hex_val(b'A'), 10);
    assert_eq!(hex_val(b'F'), 15);
    assert_eq!(hex_val(b'g'), 0);
}

#[test]
fn decode_hex_pair_correct() {
    assert_eq!(decode_hex_pair(b'2', b'0'), 0x20);
    assert_eq!(decode_hex_pair(b'F', b'F'), 0xFF);
    assert_eq!(decode_hex_pair(b'0', b'0'), 0x00);
    assert_eq!(decode_hex_pair(b'C', b'3'), 0xC3);
}

#[test]
fn is_hex_lower_digits() {
    assert!(is_hex_lower(b'0'));
    assert!(is_hex_lower(b'9'));
    assert!(is_hex_lower(b'a'));
    assert!(is_hex_lower(b'f'));
    assert!(!is_hex_lower(b'A'));
    assert!(!is_hex_lower(b'F'));
    assert!(!is_hex_lower(b'g'));
}

#[test]
fn decode_hex_pair_lowercase_and_invalid() {
    assert_eq!(decode_hex_pair(b'c', b'3'), 0xC3);
    assert_eq!(decode_hex_pair(b'7', b'e'), 0x7E);
    // Non-hex digits count as zero.
    assert_eq!(decode_hex_pair(b'G', b'1'), 0x01);
}
