//! The mathematical model of percent-encoding: what each encoder and decoder
//! produces, stated over byte sequences.
//!
//! Every transformation reads its input left to right from an index `i`; the
//! whole-input form is the transformation from index `0`.
use crate::hex::{
    spec_decode_hex_pair, spec_hex_val, spec_is_ascii_lowercase, spec_is_hex, upper_digit,
};
use crate::set::{in_component, spec_is_unreserved};
use vstd::prelude::*;

verus! {

/// `%XY`: the byte `b` written with uppercase hex digits.
pub open spec fn pct_triple(b: u8) -> Seq<u8> {
    seq![0x25u8, upper_digit(b as int / 16), upper_digit(b as int % 16)]
}

/// A well-formed `%XX` sequence starts at index `i`.
pub open spec fn is_pct_at(s: Seq<u8>, i: int) -> bool {
    &&& 0 <= i
    &&& i + 2 < s.len()
    &&& s[i] == 0x25
    &&& spec_is_hex(s[i + 1])
    &&& spec_is_hex(s[i + 2])
}

/// The byte that the `%XX` sequence at `i` denotes.
pub open spec fn pct_value(s: Seq<u8>, i: int) -> u8 {
    spec_decode_hex_pair(s[i + 1], s[i + 2])
}

// ── Raw encoding ─────────────────────────────────────────────────────

/// One byte in raw mode: bytes in `set` (and, with `force_high`, every byte
/// `>= 0x80`) become `%XY`, the rest are copied.
pub open spec fn raw_byte(b: u8, set: Set<u8>, force_high: bool) -> Seq<u8> {
    if set.contains(b) || (force_high && b >= 0x80) {
        pct_triple(b)
    } else {
        seq![b]
    }
}

/// Raw encoding of `s` from index `i` on.
pub open spec fn raw_from(s: Seq<u8>, set: Set<u8>, force_high: bool, i: int) -> Seq<u8>
    decreases s.len() - i,
{
    if 0 <= i < s.len() {
        raw_byte(s[i], set, force_high) + raw_from(s, set, force_high, i + 1)
    } else {
        seq![]
    }
}

/// Raw encoding of `s`: every byte is encoded on its own, `%` included.
pub open spec fn raw_encode(s: Seq<u8>, set: Set<u8>, force_high: bool) -> Seq<u8> {
    raw_from(s, set, force_high, 0)
}

/// Index of the first byte that raw encoding changes, from `i` on.
pub open spec fn first_raw_from(s: Seq<u8>, set: Set<u8>, i: int) -> Option<int>
    decreases s.len() - i,
{
    if 0 <= i < s.len() {
        if set.contains(s[i]) {
            Some(i)
        } else {
            first_raw_from(s, set, i + 1)
        }
    } else {
        None
    }
}

// ── Idempotent encoding ──────────────────────────────────────────────

/// Idempotent encoding from index `i` on: well-formed `%XX` sequences are
/// kept (hex digits uppercased), any other `%` becomes `%25`, and bytes in
/// `set` become `%XY`.
pub open spec fn idem_from(s: Seq<u8>, set: Set<u8>, i: int) -> Seq<u8>
    decreases s.len() - i,
{
    if 0 <= i < s.len() {
        if is_pct_at(s, i) {
            pct_triple(pct_value(s, i)) + idem_from(s, set, i + 3)
        } else if s[i] == 0x25 {
            pct_triple(0x25) + idem_from(s, set, i + 1)
        } else {
            raw_byte(s[i], set, false) + idem_from(s, set, i + 1)
        }
    } else {
        seq![]
    }
}

/// Idempotent encoding of `s`.
pub open spec fn idem_encode(s: Seq<u8>, set: Set<u8>) -> Seq<u8> {
    idem_from(s, set, 0)
}

/// Index of the first token that idempotent encoding changes, from `i` on:
/// a `%XX` with a lowercase digit, a `%` that starts no `%XX`, or a byte in
/// `set`.
pub open spec fn first_idem_from(s: Seq<u8>, set: Set<u8>, i: int) -> Option<int>
    decreases s.len() - i,
{
    if 0 <= i < s.len() {
        if is_pct_at(s, i) {
            if spec_is_ascii_lowercase(s[i + 1]) || spec_is_ascii_lowercase(s[i + 2]) {
                Some(i)
            } else {
                first_idem_from(s, set, i + 3)
            }
        } else if s[i] == 0x25 || set.contains(s[i]) {
            Some(i)
        } else {
            first_idem_from(s, set, i + 1)
        }
    } else {
        None
    }
}

// ── Validation and decoding ──────────────────────────────────────────

/// Position of the first `%` that does not start a `%XX`, from `i` on.
pub open spec fn first_invalid_from(s: Seq<u8>, i: int) -> Option<int>
    decreases s.len() - i,
{
    if 0 <= i < s.len() {
        if is_pct_at(s, i) {
            first_invalid_from(s, i + 3)
        } else if s[i] == 0x25 {
            Some(i)
        } else {
            first_invalid_from(s, i + 1)
        }
    } else {
        None
    }
}

/// Every `%` in `s` starts a `%XX` sequence.
pub open spec fn is_valid_pct(s: Seq<u8>) -> bool {
    first_invalid_from(s, 0) is None
}

/// Decoding from index `i` on: each `%XX` becomes its byte, every other byte
/// (a stray `%` included) is copied.
pub open spec fn decode_from(s: Seq<u8>, i: int) -> Seq<u8>
    decreases s.len() - i,
{
    if 0 <= i < s.len() {
        if is_pct_at(s, i) {
            seq![pct_value(s, i)] + decode_from(s, i + 3)
        } else {
            seq![s[i]] + decode_from(s, i + 1)
        }
    } else {
        seq![]
    }
}

/// Decoding of `s`.
pub open spec fn decode_pct(s: Seq<u8>) -> Seq<u8> {
    decode_from(s, 0)
}

/// The UTF-8 encoding of the replacement character `U+FFFD`.
pub open spec fn replacement_bytes() -> Seq<u8> {
    seq![0xefu8, 0xbfu8, 0xbdu8]
}

/// Lossy decoding from index `i` on: each `%XX` becomes its byte, a `%` that
/// starts no `%XX` becomes `U+FFFD`, every other byte is copied.
pub open spec fn decode_replacing_from(s: Seq<u8>, i: int) -> Seq<u8>
    decreases s.len() - i,
{
    if 0 <= i < s.len() {
        if is_pct_at(s, i) {
            seq![pct_value(s, i)] + decode_replacing_from(s, i + 3)
        } else if s[i] == 0x25 {
            replacement_bytes() + decode_replacing_from(s, i + 1)
        } else {
            seq![s[i]] + decode_replacing_from(s, i + 1)
        }
    } else {
        seq![]
    }
}

/// Lossy decoding of `s`, before UTF-8 repair.
pub open spec fn decode_replacing(s: Seq<u8>) -> Seq<u8> {
    decode_replacing_from(s, 0)
}

/// `s` holds a `%` byte.
pub open spec fn has_pct(s: Seq<u8>) -> bool {
    s.contains(0x25u8)
}

// ── Form encoding ────────────────────────────────────────────────────

/// One byte of `application/x-www-form-urlencoded` encoding: space becomes
/// `+`, bytes of the component set (and with `force_high` every byte
/// `>= 0x80`) become `%XY`.
pub open spec fn form_byte(b: u8, force_high: bool) -> Seq<u8> {
    if b == 0x20 {
        seq![0x2bu8]
    } else if in_component(b) || (force_high && b >= 0x80) {
        pct_triple(b)
    } else {
        seq![b]
    }
}

/// Form encoding from index `i` on.
pub open spec fn form_from(s: Seq<u8>, force_high: bool, i: int) -> Seq<u8>
    decreases s.len() - i,
{
    if 0 <= i < s.len() {
        form_byte(s[i], force_high) + form_from(s, force_high, i + 1)
    } else {
        seq![]
    }
}

/// Form encoding of `s`.
pub open spec fn form_encode(s: Seq<u8>, force_high: bool) -> Seq<u8> {
    form_from(s, force_high, 0)
}

/// Form decoding from index `i` on: `+` becomes a space, `%XX` its byte,
/// every other byte is copied.
pub open spec fn form_decode_from(s: Seq<u8>, i: int) -> Seq<u8>
    decreases s.len() - i,
{
    if 0 <= i < s.len() {
        if s[i] == 0x2b {
            seq![0x20u8] + form_decode_from(s, i + 1)
        } else if is_pct_at(s, i) {
            seq![pct_value(s, i)] + form_decode_from(s, i + 3)
        } else {
            seq![s[i]] + form_decode_from(s, i + 1)
        }
    } else {
        seq![]
    }
}

/// Form decoding of `s`.
pub open spec fn form_decode(s: Seq<u8>) -> Seq<u8> {
    form_decode_from(s, 0)
}

// ── Normalization ────────────────────────────────────────────────────

/// Normalization from index `i` on: a `%XX` of an unreserved byte becomes
/// that byte, any other `%XX` gets uppercase digits, the rest is copied.
pub open spec fn norm_from(s: Seq<u8>, i: int) -> Seq<u8>
    decreases s.len() - i,
{
    if 0 <= i < s.len() {
        if is_pct_at(s, i) {
            (if spec_is_unreserved(pct_value(s, i)) {
                seq![pct_value(s, i)]
            } else {
                pct_triple(pct_value(s, i))
            }) + norm_from(s, i + 3)
        } else {
            seq![s[i]] + norm_from(s, i + 1)
        }
    } else {
        seq![]
    }
}

/// Normalization of `s`.
pub open spec fn normalize_pct(s: Seq<u8>) -> Seq<u8> {
    norm_from(s, 0)
}

/// Some `%XX` from `i` on has a lowercase digit or denotes an unreserved
/// byte.
pub open spec fn needs_norm_from(s: Seq<u8>, i: int) -> bool
    decreases s.len() - i,
{
    if 0 <= i < s.len() {
        if is_pct_at(s, i) {
            spec_is_ascii_lowercase(s[i + 1]) || spec_is_ascii_lowercase(s[i + 2])
                || spec_is_unreserved(pct_value(s, i)) || needs_norm_from(s, i + 3)
        } else {
            needs_norm_from(s, i + 1)
        }
    } else {
        false
    }
}

// ── Properties of single pieces ──────────────────────────────────────

/// Every byte of `s` is ASCII.
pub open spec fn all_ascii(s: Seq<u8>) -> bool {
    forall|k: int| 0 <= k < s.len() ==> #[trigger] s[k] < 0x80
}

/// `set` holds no byte `0x80..=0xFF`.
pub open spec fn holds_no_high_bytes(set: Set<u8>) -> bool {
    forall|b: u8| b >= 0x80 ==> !#[trigger] set.contains(b)
}

/// `set` holds every byte `0x80..=0xFF`.
pub open spec fn holds_high_bytes(set: Set<u8>) -> bool {
    forall|b: u8| b >= 0x80 ==> #[trigger] set.contains(b)
}

pub proof fn lemma_upper_digit(n: int)
    requires
        0 <= n < 16,
    ensures
        spec_is_hex(upper_digit(n)),
        !spec_is_ascii_lowercase(upper_digit(n)),
        spec_hex_val(upper_digit(n)) == n,
        upper_digit(n) < 0x80,
        upper_digit(n) != 0x25,
        upper_digit(n) != 0x2b,
{
}

/// `%XY` is a well-formed, uppercase `%XX` sequence for `b`.
pub proof fn lemma_pct_triple(b: u8)
    ensures
        pct_triple(b).len() == 3,
        is_pct_at(pct_triple(b), 0),
        pct_value(pct_triple(b), 0) == b,
        !spec_is_ascii_lowercase(pct_triple(b)[1]),
        !spec_is_ascii_lowercase(pct_triple(b)[2]),
        all_ascii(pct_triple(b)),
        pct_triple(b)[1] != 0x25 && pct_triple(b)[2] != 0x25,
        pct_triple(b)[1] != 0x2b && pct_triple(b)[2] != 0x2b,
        pct_triple(b)[0] != 0x2b,
{
    lemma_upper_digit(b as int / 16);
    lemma_upper_digit(b as int % 16);
}

/// An uppercase hex digit is written back as itself.
pub proof fn lemma_upper_digit_roundtrip(d: u8)
    requires
        spec_is_hex(d),
        !spec_is_ascii_lowercase(d),
    ensures
        upper_digit(spec_hex_val(d) as int) == d,
{
}

/// A well-formed `%XX` with uppercase digits is its own re-encoding.
pub proof fn lemma_pct_triple_of_value(s: Seq<u8>, i: int)
    requires
        is_pct_at(s, i),
        !spec_is_ascii_lowercase(s[i + 1]),
        !spec_is_ascii_lowercase(s[i + 2]),
    ensures
        pct_triple(pct_value(s, i)) == s.subrange(i, i + 3),
{
    lemma_upper_digit_roundtrip(s[i + 1]);
    lemma_upper_digit_roundtrip(s[i + 2]);
    assert(pct_triple(pct_value(s, i)) =~= s.subrange(i, i + 3));
}

/// Concatenating ASCII sequences gives an ASCII sequence.
pub proof fn lemma_ascii_concat(a: Seq<u8>, b: Seq<u8>)
    requires
        all_ascii(a),
        all_ascii(b),
    ensures
        all_ascii(a + b),
{
    assert forall|k: int| 0 <= k < (a + b).len() implies #[trigger] (a + b)[k] < 0x80 by {
        if k < a.len() {
            assert((a + b)[k] == a[k]);
        } else {
            assert((a + b)[k] == b[k - a.len()]);
        }
    }
}

/// Raw encoding is ASCII when every byte `>= 0x80` gets encoded.
pub proof fn lemma_raw_ascii(s: Seq<u8>, set: Set<u8>, force_high: bool, i: int)
    requires
        holds_high_bytes(set) || force_high,
    ensures
        all_ascii(raw_from(s, set, force_high, i)),
    decreases s.len() - i,
{
    if 0 <= i < s.len() {
        lemma_raw_ascii(s, set, force_high, i + 1);
        lemma_pct_triple(s[i]);
        if !(set.contains(s[i]) || (force_high && s[i] >= 0x80)) {
            assert(s[i] < 0x80);
        }
        lemma_ascii_concat(raw_byte(s[i], set, force_high), raw_from(s, set, force_high, i + 1));
    }
}

/// Idempotent encoding is ASCII when `set` holds every byte `>= 0x80`.
pub proof fn lemma_idem_ascii(s: Seq<u8>, set: Set<u8>, i: int)
    requires
        holds_high_bytes(set),
    ensures
        all_ascii(idem_from(s, set, i)),
    decreases s.len() - i,
{
    if 0 <= i < s.len() {
        lemma_pct_triple(0x25);
        lemma_pct_triple(s[i]);
        if is_pct_at(s, i) {
            lemma_idem_ascii(s, set, i + 3);
            lemma_pct_triple(pct_value(s, i));
            lemma_ascii_concat(pct_triple(pct_value(s, i)), idem_from(s, set, i + 3));
        } else {
            lemma_idem_ascii(s, set, i + 1);
            if s[i] == 0x25 {
                lemma_ascii_concat(pct_triple(0x25), idem_from(s, set, i + 1));
            } else {
                if !set.contains(s[i]) {
                    assert(s[i] < 0x80);
                }
                lemma_ascii_concat(raw_byte(s[i], set, false), idem_from(s, set, i + 1));
            }
        }
    }
}

/// Form encoding is ASCII for any input (the component set holds every byte
/// `>= 0x80`).
pub proof fn lemma_form_ascii(s: Seq<u8>, force_high: bool, i: int)
    ensures
        all_ascii(form_from(s, force_high, i)),
    decreases s.len() - i,
{
    if 0 <= i < s.len() {
        lemma_form_ascii(s, force_high, i + 1);
        lemma_pct_triple(s[i]);
        lemma_ascii_concat(form_byte(s[i], force_high), form_from(s, force_high, i + 1));
    }
}

} // verus!
