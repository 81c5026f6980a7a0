//! Lossy UTF-8: the characters that a byte sequence encodes, with each
//! maximal subpart of an ill-formed sequence replaced by `U+FFFD`, as the
//! Unicode standard recommends ("U+FFFD substitution of maximal subparts").
use vstd::prelude::*;
use vstd::utf8::{
    decode_first_scalar, decode_utf8, is_continuation_byte, length_of_first_scalar,
    pop_first_scalar, valid_first_scalar, valid_utf8,
};

verus! {

/// The replacement character `U+FFFD`.
pub open spec fn replacement_char() -> char {
    '\u{FFFD}'
}

/// Number of bytes in the UTF-8 encoding of a character whose encoding
/// starts with `lead`; 0 when no character's encoding starts with `lead`.
pub open spec fn utf8_width(lead: u8) -> int {
    if lead < 0x80 {
        1
    } else if 0xc2 <= lead <= 0xdf {
        2
    } else if 0xe0 <= lead <= 0xef {
        3
    } else if 0xf0 <= lead <= 0xf4 {
        4
    } else {
        0
    }
}

/// `b` may follow `lead` as the second byte of a character's encoding
/// (the ranges of the Unicode standard, Table 3-7).
pub open spec fn second_byte_ok(lead: u8, b: u8) -> bool {
    if lead == 0xe0 {
        0xa0 <= b <= 0xbf
    } else if lead == 0xed {
        0x80 <= b <= 0x9f
    } else if lead == 0xf0 {
        0x90 <= b <= 0xbf
    } else if lead == 0xf4 {
        0x80 <= b <= 0x8f
    } else {
        0x80 <= b <= 0xbf
    }
}

/// `t` is a non-empty prefix of the UTF-8 encoding of some character.
pub open spec fn is_utf8_prefix(t: Seq<u8>) -> bool {
    &&& 1 <= t.len() <= utf8_width(t[0])
    &&& t.len() >= 2 ==> second_byte_ok(t[0], t[1])
    &&& t.len() >= 3 ==> is_continuation_byte(t[2])
    &&& t.len() >= 4 ==> is_continuation_byte(t[3])
}

/// `t` begins the encoding of a character but stops short of its end.
pub open spec fn is_utf8_partial(t: Seq<u8>) -> bool {
    is_utf8_prefix(t) && t.len() < utf8_width(t[0])
}

/// Length of the maximal subpart at the start of `b`: its longest prefix
/// that begins some character's encoding, or one byte when no prefix does.
pub open spec fn maximal_subpart_len(b: Seq<u8>) -> int {
    if b.len() >= 3 && is_utf8_partial(b.take(3)) {
        3
    } else if b.len() >= 2 && is_utf8_partial(b.take(2)) {
        2
    } else {
        1
    }
}

/// The text lossy UTF-8 decoding makes of `b`: each well-formed character
/// is decoded, each maximal subpart of an ill-formed sequence becomes one
/// `U+FFFD`.
pub open spec fn lossy_utf8(b: Seq<u8>) -> Seq<char>
    decreases b.len(),
{
    if b.len() == 0 {
        seq![]
    } else if valid_first_scalar(b) {
        seq![decode_first_scalar(b) as char] + lossy_utf8(pop_first_scalar(b))
    } else {
        seq![replacement_char()] + lossy_utf8(b.skip(maximal_subpart_len(b)))
    }
}

proof fn lemma_bv_width_1(b0: u8)
    by (bit_vector)
    requires
        b0 <= 0x7f,
    ensures
        ((b0 & 0x7f) as u32) == b0 as u32,
{
}

proof fn lemma_bv_width_2(b0: u8, b1: u8)
    by (bit_vector)
    requires
        0xc0 <= b0 <= 0xdf,
        0x80 <= b1 <= 0xbf,
    ensures
        ((((b0 & 0x1f) as u32) << 6) | ((b1 & 0x3f) as u32)) <= 0x7ff,
        0x80 <= ((((b0 & 0x1f) as u32) << 6) | ((b1 & 0x3f) as u32)) <==> b0 >= 0xc2,
{
}

proof fn lemma_bv_width_3(b0: u8, b1: u8, b2: u8)
    by (bit_vector)
    requires
        0xe0 <= b0 <= 0xef,
        0x80 <= b1 <= 0xbf,
        0x80 <= b2 <= 0xbf,
    ensures
        ({
            let cp = (((b0 & 0x0f) as u32) << 12) | (((b1 & 0x3f) as u32) << 6) | ((b2
                & 0x3f) as u32);
            (0x800 <= cp && !(0xd800 <= cp && cp <= 0xdfff)) <==> ((b0 == 0xe0 ==> b1 >= 0xa0)
                && (b0 == 0xed ==> b1 <= 0x9f))
        }),
{
}

proof fn lemma_bv_width_4(b0: u8, b1: u8, b2: u8, b3: u8)
    by (bit_vector)
    requires
        0xf0 <= b0 <= 0xf7,
        0x80 <= b1 <= 0xbf,
        0x80 <= b2 <= 0xbf,
        0x80 <= b3 <= 0xbf,
    ensures
        ({
            let cp = (((b0 & 0x07) as u32) << 18) | (((b1 & 0x3f) as u32) << 12) | (((b2
                & 0x3f) as u32) << 6) | ((b3 & 0x3f) as u32);
            (0x10000 <= cp && cp <= 0x10ffff) <==> (b0 <= 0xf4 && (b0 == 0xf0 ==> b1 >= 0x90) && (
            b0 == 0xf4 ==> b1 <= 0x8f))
        }),
{
}

/// A sequence starts with a well-formed character exactly when its first
/// `utf8_width` bytes are a complete prefix of a character's encoding; the
/// character then takes `utf8_width` bytes.
pub proof fn lemma_valid_first_scalar_width(b: Seq<u8>)
    requires
        b.len() >= 1,
    ensures
        valid_first_scalar(b) <==> (utf8_width(b[0]) >= 1 && b.len() >= utf8_width(b[0])
            && is_utf8_prefix(b.take(utf8_width(b[0])))),
        valid_first_scalar(b) ==> length_of_first_scalar(b) == utf8_width(b[0]),
{
    let w = utf8_width(b[0]);
    let b0 = b[0];
    if b0 <= 0x7f {
        lemma_bv_width_1(b0);
        assert(b.take(1)[0] == b0);
    } else if b0 <= 0xbf {
    } else if b0 <= 0xdf {
        if b.len() >= 2 && is_continuation_byte(b[1]) {
            lemma_bv_width_2(b0, b[1]);
        }
        if w == 2 && b.len() >= 2 {
            assert(b.take(2)[0] == b0 && b.take(2)[1] == b[1]);
        }
    } else if b0 <= 0xef {
        if b.len() >= 3 && is_continuation_byte(b[1]) && is_continuation_byte(b[2]) {
            lemma_bv_width_3(b0, b[1], b[2]);
        }
        if b.len() >= 3 {
            assert(b.take(3)[0] == b0 && b.take(3)[1] == b[1] && b.take(3)[2] == b[2]);
        }
    } else if b0 <= 0xf7 {
        if b.len() >= 4 && is_continuation_byte(b[1]) && is_continuation_byte(b[2])
            && is_continuation_byte(b[3]) {
            lemma_bv_width_4(b0, b[1], b[2], b[3]);
        }
        if b.len() >= 4 {
            assert(b.take(4)[0] == b0 && b.take(4)[1] == b[1] && b.take(4)[2] == b[2] && b.take(
                4,
            )[3] == b[3]);
        }
    } else {
    }
}

/// On well-formed UTF-8, lossy decoding is plain decoding.
pub proof fn lemma_lossy_utf8_of_valid(b: Seq<u8>)
    requires
        valid_utf8(b),
    ensures
        lossy_utf8(b) == decode_utf8(b),
    decreases b.len(),
{
    if b.len() > 0 {
        lemma_valid_first_scalar_width(b);
        lemma_lossy_utf8_of_valid(pop_first_scalar(b));
    }
}

} // verus!
