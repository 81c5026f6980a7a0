//! Hex-digit tables and helpers shared by encoding and decoding.
use vstd::prelude::*;

verus! {

/// Uppercase hex digits `0123456789ABCDEF`, indexed by nibble value.
pub const HEX_UPPER: &'static [u8; 16] = &[
    0x30, 0x31, 0x32, 0x33, 0x34, 0x35, 0x36, 0x37,
    0x38, 0x39, 0x41, 0x42, 0x43, 0x44, 0x45, 0x46,
];

/// Lowercase hex digits `0123456789abcdef`, indexed by nibble value.
pub const HEX_LOWER: &'static [u8; 16] = &[
    0x30, 0x31, 0x32, 0x33, 0x34, 0x35, 0x36, 0x37,
    0x38, 0x39, 0x61, 0x62, 0x63, 0x64, 0x65, 0x66,
];

/// `b` is an ASCII hex digit: `0-9`, `a-f` or `A-F`.
pub open spec fn spec_is_hex(b: u8) -> bool {
    (0x30 <= b <= 0x39) || (0x41 <= b <= 0x46) || (0x61 <= b <= 0x66)
}

/// `b` is a lowercase-or-decimal hex digit: `0-9` or `a-f`.
pub open spec fn spec_is_hex_lower(b: u8) -> bool {
    (0x30 <= b <= 0x39) || (0x61 <= b <= 0x66)
}

/// `b` is an ASCII lowercase letter.
pub open spec fn spec_is_ascii_lowercase(b: u8) -> bool {
    0x61 <= b <= 0x7a
}

/// Numeric value of a hex digit; `0` for any other byte.
pub open spec fn spec_hex_val(b: u8) -> u8 {
    if 0x30 <= b <= 0x39 {
        (b - 0x30) as u8
    } else if 0x61 <= b <= 0x66 {
        (b - 0x61 + 10) as u8
    } else if 0x41 <= b <= 0x46 {
        (b - 0x41 + 10) as u8
    } else {
        0
    }
}

/// The uppercase hex digit for a nibble `n < 16`.
pub open spec fn upper_digit(n: int) -> u8 {
    if n < 10 {
        (0x30 + n) as u8
    } else {
        (0x41 + n - 10) as u8
    }
}

/// The lowercase hex digit for a nibble `n < 16`.
pub open spec fn lower_digit(n: int) -> u8 {
    if n < 10 {
        (0x30 + n) as u8
    } else {
        (0x61 + n - 10) as u8
    }
}

/// The byte that the digit pair `hi lo` denotes.
pub open spec fn spec_decode_hex_pair(hi: u8, lo: u8) -> u8 {
    (spec_hex_val(hi) * 16 + spec_hex_val(lo)) as u8
}

/// The two tables hold exactly the digits that `upper_digit` and
/// `lower_digit` describe.
pub proof fn lemma_hex_tables()
    ensures
        forall|n: int| 0 <= n < 16 ==> #[trigger] HEX_UPPER@[n] == upper_digit(n),
        forall|n: int| 0 <= n < 16 ==> #[trigger] HEX_LOWER@[n] == lower_digit(n),
{
}

/// Returns `true` if `byte` is an ASCII hex digit (`0-9`, `a-f`, `A-F`).
pub fn is_hex(byte: u8) -> (r: bool)
    ensures
        r == spec_is_hex(byte),
{
    (0x30 <= byte && byte <= 0x39) || (0x41 <= byte && byte <= 0x46) || (0x61 <= byte && byte
        <= 0x66)
}

/// Returns `true` if `byte` is a lowercase hex digit (`0-9`, `a-f`).
pub fn is_hex_lower(byte: u8) -> (r: bool)
    ensures
        r == spec_is_hex_lower(byte),
{
    (0x30 <= byte && byte <= 0x39) || (0x61 <= byte && byte <= 0x66)
}

/// Numeric value of an ASCII hex digit, or `0` for a non-hex byte.
pub fn hex_val(byte: u8) -> (r: u8)
    ensures
        r == spec_hex_val(byte),
        r < 16,
{
    if 0x30 <= byte && byte <= 0x39 {
        byte - 0x30
    } else if 0x61 <= byte && byte <= 0x66 {
        byte - 0x61 + 10
    } else if 0x41 <= byte && byte <= 0x46 {
        byte - 0x41 + 10
    } else {
        0
    }
}

/// Decode the byte denoted by the two hex digits `hi` and `lo`.
///
/// Non-hex digits count as `0`; callers check [`is_hex`] first when they
/// need to tell an invalid digit from a zero.
pub fn decode_hex_pair(hi: u8, lo: u8) -> (r: u8)
    ensures
        r == spec_decode_hex_pair(hi, lo),
        r == spec_hex_val(hi) * 16 + spec_hex_val(lo),
{
    let h = hex_val(hi);
    let l = hex_val(lo);
    h * 16 + l
}

} // verus!
