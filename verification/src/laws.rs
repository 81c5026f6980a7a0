//! Properties that relate the encoders, decoders and scanners to each other.
use crate::hex::{
    lemma_hex_tables, lower_digit, spec_hex_val, spec_is_ascii_lowercase, spec_is_hex, upper_digit,
    HEX_LOWER, HEX_UPPER,
};
use crate::lossy::{lemma_lossy_utf8_of_valid, lossy_utf8};
use crate::model::{
    decode_from, decode_pct, decode_replacing, decode_replacing_from, first_idem_from,
    first_invalid_from, form_byte, form_decode, form_decode_from, form_encode, form_from,
    idem_encode,
    idem_from, is_pct_at, is_valid_pct, lemma_pct_triple, needs_norm_from, norm_from,
    normalize_pct, pct_triple, pct_value, raw_byte, raw_encode, raw_from,
};
use crate::set::{in_component, spec_is_unreserved};
use crate::normalize::lemma_norm_unchanged;
use crate::text::lemma_text_bytes;
use vstd::utf8::{decode_utf8, encode_utf8, valid_utf8};
use vstd::prelude::*;

verus! {

// ── Reading past a prefix ────────────────────────────────────────────

/// An index of `r` as an index of `p + r`.
pub open spec fn shifted(o: Option<int>, n: int) -> Option<int> {
    match o {
        Some(x) => Some(x + n),
        None => None,
    }
}

proof fn lemma_pct_at_shift(p: Seq<u8>, r: Seq<u8>, k: int)
    requires
        0 <= k < r.len(),
    ensures
        (p + r)[p.len() + k] == r[k],
        is_pct_at(p + r, p.len() + k) == is_pct_at(r, k),
        is_pct_at(r, k) ==> pct_value(p + r, p.len() + k) == pct_value(r, k) && (p + r)[p.len() + k
            + 1] == r[k + 1] && (p + r)[p.len() + k + 2] == r[k + 2],
{
    if k + 1 < r.len() {
        assert((p + r)[p.len() + k + 1] == r[k + 1]);
    }
    if k + 2 < r.len() {
        assert((p + r)[p.len() + k + 2] == r[k + 2]);
    }
}

proof fn lemma_decode_shift(p: Seq<u8>, r: Seq<u8>, k: int)
    requires
        0 <= k <= r.len(),
    ensures
        decode_from(p + r, p.len() + k) == decode_from(r, k),
    decreases r.len() - k,
{
    if k < r.len() {
        lemma_pct_at_shift(p, r, k);
        if is_pct_at(r, k) {
            lemma_decode_shift(p, r, k + 3);
        } else {
            lemma_decode_shift(p, r, k + 1);
        }
    }
}

proof fn lemma_form_decode_shift(p: Seq<u8>, r: Seq<u8>, k: int)
    requires
        0 <= k <= r.len(),
    ensures
        form_decode_from(p + r, p.len() + k) == form_decode_from(r, k),
    decreases r.len() - k,
{
    if k < r.len() {
        lemma_pct_at_shift(p, r, k);
        if r[k] == 0x2b {
            lemma_form_decode_shift(p, r, k + 1);
        } else if is_pct_at(r, k) {
            lemma_form_decode_shift(p, r, k + 3);
        } else {
            lemma_form_decode_shift(p, r, k + 1);
        }
    }
}

proof fn lemma_first_idem_shift(p: Seq<u8>, r: Seq<u8>, set: Set<u8>, k: int)
    requires
        0 <= k <= r.len(),
    ensures
        first_idem_from(p + r, set, p.len() + k) == shifted(first_idem_from(r, set, k), p.len() as int),
    decreases r.len() - k,
{
    if k < r.len() {
        lemma_pct_at_shift(p, r, k);
        if is_pct_at(r, k) {
            lemma_first_idem_shift(p, r, set, k + 3);
        } else {
            lemma_first_idem_shift(p, r, set, k + 1);
        }
    }
}

proof fn lemma_first_invalid_shift(p: Seq<u8>, r: Seq<u8>, k: int)
    requires
        0 <= k <= r.len(),
    ensures
        first_invalid_from(p + r, p.len() + k) == shifted(first_invalid_from(r, k), p.len() as int),
    decreases r.len() - k,
{
    if k < r.len() {
        lemma_pct_at_shift(p, r, k);
        if is_pct_at(r, k) {
            lemma_first_invalid_shift(p, r, k + 3);
        } else {
            lemma_first_invalid_shift(p, r, k + 1);
        }
    }
}

proof fn lemma_needs_norm_shift(p: Seq<u8>, r: Seq<u8>, k: int)
    requires
        0 <= k <= r.len(),
    ensures
        needs_norm_from(p + r, p.len() + k) == needs_norm_from(r, k),
    decreases r.len() - k,
{
    if k < r.len() {
        lemma_pct_at_shift(p, r, k);
        if is_pct_at(r, k) {
            lemma_needs_norm_shift(p, r, k + 3);
        } else {
            lemma_needs_norm_shift(p, r, k + 1);
        }
    }
}

// ── Canonical output of idempotent encoding ──────────────────────────

/// Idempotent encoding from `i` on produces output that idempotent encoding
/// leaves alone and in which every `%` starts a `%XX`.
proof fn lemma_idem_output_canonical(s: Seq<u8>, set: Set<u8>, i: int)
    requires
        0 <= i <= s.len(),
    ensures
        first_idem_from(idem_from(s, set, i), set, 0) is None,
        first_invalid_from(idem_from(s, set, i), 0) is None,
    decreases s.len() - i,
{
    if i < s.len() {
        let (piece, n) = if is_pct_at(s, i) {
            (pct_triple(pct_value(s, i)), 3int)
        } else if s[i] == 0x25 {
            (pct_triple(0x25), 1int)
        } else {
            (raw_byte(s[i], set, false), 1int)
        };
        let rest = idem_from(s, set, i + n);
        lemma_idem_output_canonical(s, set, i + n);
        assert(idem_from(s, set, i) == piece + rest);
        lemma_first_idem_shift(piece, rest, set, 0);
        lemma_first_invalid_shift(piece, rest, 0);
        let out = piece + rest;
        if piece.len() == 3 {
            let b = piece[0];
            lemma_pct_triple(pct_value(piece, 0));
            if is_pct_at(s, i) {
                lemma_pct_triple(pct_value(s, i));
            } else if s[i] == 0x25 {
                lemma_pct_triple(0x25);
            } else {
                lemma_pct_triple(s[i]);
            }
            assert(out[0] == piece[0] && out[1] == piece[1] && out[2] == piece[2]);
            assert(is_pct_at(out, 0));
        } else {
            assert(out[0] == piece[0]);
            assert(!is_pct_at(out, 0));
        }
    }
}

/// **Idempotence.** Encoding an already encoded string changes nothing:
/// `encode(encode(x)) == encode(x)` for every set.
pub proof fn law_idempotent_encoding_is_idempotent(s: Seq<u8>, set: Set<u8>)
    ensures
        idem_encode(idem_encode(s, set), set) == idem_encode(s, set),
        first_idem_from(idem_encode(s, set), set, 0) is None,
{
    lemma_idem_output_canonical(s, set, 0);
    let t = idem_encode(s, set);
    crate::scan::lemma_first_idem_none_iff_unchanged(t, set, 0);
    assert(t.subrange(0, t.len() as int) =~= t);
}

/// **Encoded output is valid.** Every `%` in the output of idempotent
/// encoding starts a `%XX` sequence.
pub proof fn law_idempotent_encoding_is_valid(s: Seq<u8>, set: Set<u8>)
    ensures
        is_valid_pct(idem_encode(s, set)),
{
    lemma_idem_output_canonical(s, set, 0);
}

// ── Round trips ──────────────────────────────────────────────────────

/// Decoding undoes raw encoding from `i` on when `%` itself is encoded.
proof fn lemma_decode_raw(s: Seq<u8>, set: Set<u8>, force_high: bool, i: int)
    requires
        0 <= i <= s.len(),
        set.contains(0x25),
    ensures
        decode_pct(raw_from(s, set, force_high, i)) == s.subrange(i, s.len() as int),
    decreases s.len() - i,
{
    if i < s.len() {
        let piece = raw_byte(s[i], set, force_high);
        let rest = raw_from(s, set, force_high, i + 1);
        lemma_decode_raw(s, set, force_high, i + 1);
        lemma_decode_shift(piece, rest, 0);
        lemma_pct_triple(s[i]);
        let out = piece + rest;
        if piece.len() == 3 {
            assert(out[0] == piece[0] && out[1] == piece[1] && out[2] == piece[2]);
            assert(is_pct_at(out, 0) && pct_value(out, 0) == s[i]);
        } else {
            assert(out[0] == s[i]);
            assert(!is_pct_at(out, 0));
        }
        assert(s.subrange(i, s.len() as int) =~= seq![s[i]] + s.subrange(i + 1, s.len() as int));
    } else {
        assert(s.subrange(i, s.len() as int) =~= Seq::<u8>::empty());
    }
}

/// **Raw round trip.** When the set encodes `%`, decoding the raw encoding
/// gives back the input bytes, with or without forced high bytes.
pub proof fn law_decode_inverts_raw_encoding(s: Seq<u8>, set: Set<u8>, force_high: bool)
    requires
        set.contains(0x25),
    ensures
        decode_pct(raw_encode(s, set, force_high)) == s,
{
    lemma_decode_raw(s, set, force_high, 0);
    assert(s.subrange(0, s.len() as int) =~= s);
}

/// `s` holds no well-formed `%XX` sequence.
pub open spec fn has_no_pct_sequence(s: Seq<u8>) -> bool {
    forall|i: int| !#[trigger] is_pct_at(s, i)
}

proof fn lemma_decode_idem(s: Seq<u8>, set: Set<u8>, i: int)
    requires
        0 <= i <= s.len(),
        has_no_pct_sequence(s),
    ensures
        decode_pct(idem_from(s, set, i)) == s.subrange(i, s.len() as int),
    decreases s.len() - i,
{
    if i < s.len() {
        assert(!is_pct_at(s, i));
        let piece = if s[i] == 0x25 {
            pct_triple(0x25)
        } else {
            raw_byte(s[i], set, false)
        };
        let rest = idem_from(s, set, i + 1);
        lemma_decode_idem(s, set, i + 1);
        lemma_decode_shift(piece, rest, 0);
        lemma_pct_triple(s[i]);
        let out = piece + rest;
        if piece.len() == 3 {
            assert(out[0] == piece[0] && out[1] == piece[1] && out[2] == piece[2]);
            assert(is_pct_at(out, 0) && pct_value(out, 0) == s[i]);
        } else {
            assert(out[0] == s[i]);
            assert(!is_pct_at(out, 0));
        }
        assert(s.subrange(i, s.len() as int) =~= seq![s[i]] + s.subrange(i + 1, s.len() as int));
    } else {
        assert(s.subrange(i, s.len() as int) =~= Seq::<u8>::empty());
    }
}

/// **Idempotent round trip.** For input with no `%XX` sequence of its own,
/// decoding the idempotent encoding gives back the input, for every set.
pub proof fn law_decode_inverts_idempotent_encoding(s: Seq<u8>, set: Set<u8>)
    requires
        has_no_pct_sequence(s),
    ensures
        decode_pct(idem_encode(s, set)) == s,
{
    lemma_decode_idem(s, set, 0);
    assert(s.subrange(0, s.len() as int) =~= s);
}

proof fn lemma_form_roundtrip(s: Seq<u8>, force_high: bool, i: int)
    requires
        0 <= i <= s.len(),
    ensures
        form_decode(form_from(s, force_high, i)) == s.subrange(i, s.len() as int),
    decreases s.len() - i,
{
    if i < s.len() {
        let piece = crate::model::form_byte(s[i], force_high);
        let rest = form_from(s, force_high, i + 1);
        lemma_form_roundtrip(s, force_high, i + 1);
        lemma_form_decode_shift(piece, rest, 0);
        lemma_pct_triple(s[i]);
        let out = piece + rest;
        if piece.len() == 3 {
            assert(out[0] == piece[0] && out[1] == piece[1] && out[2] == piece[2]);
            assert(out[0] != 0x2b);
            assert(is_pct_at(out, 0) && pct_value(out, 0) == s[i]);
        } else if s[i] == 0x20 {
            assert(out[0] == 0x2bu8);
        } else {
            assert(!in_component(s[i]));
            assert(out[0] == s[i]);
            assert(!is_pct_at(out, 0));
        }
        assert(s.subrange(i, s.len() as int) =~= seq![s[i]] + s.subrange(i + 1, s.len() as int));
    } else {
        assert(s.subrange(i, s.len() as int) =~= Seq::<u8>::empty());
    }
}

/// **Form round trip.** Form decoding gives back any input that form
/// encoding was given: spaces, literal `+` and `%` included.
pub proof fn law_form_decoding_inverts_form_encoding(s: Seq<u8>, force_high: bool)
    ensures
        form_decode(form_encode(s, force_high)) == s,
{
    lemma_form_roundtrip(s, force_high, 0);
    assert(s.subrange(0, s.len() as int) =~= s);
}

// ── Normalization ────────────────────────────────────────────────────

proof fn lemma_norm_output(s: Seq<u8>, i: int)
    requires
        0 <= i <= s.len(),
        first_invalid_from(s, i) is None,
    ensures
        !needs_norm_from(norm_from(s, i), 0),
        first_invalid_from(norm_from(s, i), 0) is None,
        decode_pct(norm_from(s, i)) == decode_from(s, i),
    decreases s.len() - i,
{
    if i < s.len() {
        let (piece, n) = if is_pct_at(s, i) {
            (
                if spec_is_unreserved(pct_value(s, i)) {
                    seq![pct_value(s, i)]
                } else {
                    pct_triple(pct_value(s, i))
                },
                3int,
            )
        } else {
            (seq![s[i]], 1int)
        };
        let rest = norm_from(s, i + n);
        lemma_norm_output(s, i + n);
        assert(norm_from(s, i) == piece + rest);
        lemma_needs_norm_shift(piece, rest, 0);
        lemma_first_invalid_shift(piece, rest, 0);
        lemma_decode_shift(piece, rest, 0);
        let out = piece + rest;
        if piece.len() == 3 {
            lemma_pct_triple(pct_value(s, i));
            assert(out[0] == piece[0] && out[1] == piece[1] && out[2] == piece[2]);
            assert(is_pct_at(out, 0));
        } else {
            assert(out[0] == piece[0]);
            assert(piece[0] != 0x25);
            assert(!is_pct_at(out, 0));
        }
    }
}

/// **Normalization is idempotent on valid input.** For input in which every
/// `%` starts a `%XX`, normalizing twice is normalizing once, and the result
/// is valid again.
pub proof fn law_normalize_is_idempotent(s: Seq<u8>)
    requires
        is_valid_pct(s),
    ensures
        normalize_pct(normalize_pct(s)) == normalize_pct(s),
        is_valid_pct(normalize_pct(s)),
{
    lemma_norm_output(s, 0);
    let t = normalize_pct(s);
    crate::normalize::lemma_norm_unchanged(t, 0);
    assert(t.subrange(0, t.len() as int) =~= t);
}

/// **Normalization keeps the meaning.** For valid input, the normalized
/// string decodes to the same bytes as the input.
pub proof fn law_normalize_preserves_decoding(s: Seq<u8>)
    requires
        is_valid_pct(s),
    ensures
        decode_pct(normalize_pct(s)) == decode_pct(s),
{
    lemma_norm_output(s, 0);
}

// ── Round trips on text ──────────────────────────────────────────────

/// Without a stray `%`, lossy decoding and plain decoding agree.
proof fn lemma_replacing_on_valid(s: Seq<u8>, i: int)
    requires
        0 <= i <= s.len(),
        first_invalid_from(s, i) is None,
    ensures
        decode_replacing_from(s, i) == decode_from(s, i),
    decreases s.len() - i,
{
    if i < s.len() {
        if is_pct_at(s, i) {
            lemma_replacing_on_valid(s, i + 3);
        } else {
            lemma_replacing_on_valid(s, i + 1);
        }
    }
}

/// **Lossy decoding of valid input.** When every `%` starts a `%XX`, lossy
/// decoding replaces nothing before UTF-8 repair: it decodes as
/// [`crate::decode_bytes`] does.
pub proof fn law_lossy_decoding_of_valid_input(s: Seq<u8>)
    requires
        is_valid_pct(s),
    ensures
        decode_replacing(s) == decode_pct(s),
{
    lemma_replacing_on_valid(s, 0);
}

/// **Text round trip.** Lossy decoding of the idempotent encoding of a text
/// with no `%XX` sequence of its own gives back the text: `decode(encode(x))
/// == x`, whatever the set.
pub proof fn law_decode_encode_text(t: Seq<char>, set: Set<u8>)
    requires
        has_no_pct_sequence(encode_utf8(t)),
    ensures
        lossy_utf8(decode_replacing(idem_encode(encode_utf8(t), set))) == t,
{
    law_decode_inverts_idempotent_encoding(encode_utf8(t), set);
    law_idempotent_encoding_is_valid(encode_utf8(t), set);
    law_lossy_decoding_of_valid_input(idem_encode(encode_utf8(t), set));
    lemma_text_bytes(t);
    lemma_lossy_utf8_of_valid(encode_utf8(t));
}

/// **Form text round trip.** `decode_form(encode_form(x)) == x` for every
/// text.
pub proof fn law_decode_form_encode_form_text(t: Seq<char>)
    ensures
        lossy_utf8(form_decode(form_encode(encode_utf8(t), false))) == t,
{
    law_form_decoding_inverts_form_encoding(encode_utf8(t), false);
    lemma_text_bytes(t);
    lemma_lossy_utf8_of_valid(encode_utf8(t));
}

// ── Streaming decoding ───────────────────────────────────────────────

/// Raw encoding from `i` on leaves no stray `%` when `%` itself is
/// encoded.
proof fn lemma_raw_valid_pct(s: Seq<u8>, set: Set<u8>, force_high: bool, i: int)
    requires
        0 <= i <= s.len(),
        set.contains(0x25),
    ensures
        first_invalid_from(raw_from(s, set, force_high, i), 0) is None,
    decreases s.len() - i,
{
    if i < s.len() {
        let piece = raw_byte(s[i], set, force_high);
        let rest = raw_from(s, set, force_high, i + 1);
        let out = piece + rest;
        lemma_raw_valid_pct(s, set, force_high, i + 1);
        lemma_first_invalid_shift(piece, rest, 0);
        lemma_pct_triple(s[i]);
        assert(raw_from(s, set, force_high, i) == out);
        if piece.len() == 3 {
            assert(out[0] == piece[0] && out[1] == piece[1] && out[2] == piece[2]);
            assert(is_pct_at(out, 0));
        } else {
            assert(out[0] == s[i]);
            assert(!is_pct_at(out, 0));
        }
    }
}

/// **Streaming round trip.** Streaming decoding ([`crate::DecodedChars`])
/// of the raw encoding of a text ([`crate::EncodedBytes`]) yields the text
/// back, for any set that encodes `%`, such as the component set.
pub proof fn law_streaming_roundtrip(t: Seq<char>, set: Set<u8>)
    requires
        set.contains(0x25),
    ensures
        lossy_utf8(decode_replacing(raw_encode(encode_utf8(t), set, false))) == t,
{
    let x = encode_utf8(t);
    let e = raw_encode(x, set, false);
    lemma_raw_valid_pct(x, set, false, 0);
    law_lossy_decoding_of_valid_input(e);
    law_decode_inverts_raw_encoding(x, set, false);
    lemma_text_bytes(t);
    lemma_lossy_utf8_of_valid(x);
}

/// **Streaming decoding matches [`crate::decode`].** For every input `s`,
/// a fresh [`crate::DecodedChars`] yields `lossy_utf8(decode_replacing(s))`
/// and [`crate::decode`] returns that same text (each by its contract), so
/// the two agree on all input, ill-formed UTF-8 included; where the decoded
/// bytes are well-formed UTF-8 the text is their plain decoding.
pub proof fn law_streaming_decoding_matches_decode(s: Seq<u8>)
    ensures
        valid_utf8(decode_replacing(s)) ==> lossy_utf8(decode_replacing(s)) == decode_utf8(
            decode_replacing(s),
        ),
{
    if valid_utf8(decode_replacing(s)) {
        lemma_lossy_utf8_of_valid(decode_replacing(s));
    }
}

// ── Hex digits, validity, the form set and normalization ─────────────

/// The unreserved bytes of RFC 3986, section 2.3: `A-Z a-z 0-9 - . _ ~`.
pub open spec fn rfc3986_unreserved(b: u8) -> bool {
    (0x41 <= b <= 0x5a) || (0x61 <= b <= 0x7a) || (0x30 <= b <= 0x39) || b == 0x2d || b == 0x2e
        || b == 0x5f || b == 0x7e
}

/// `%xy`: the byte `b` written with lowercase hex digits.
pub open spec fn pct_triple_lower(b: u8) -> Seq<u8> {
    seq![0x25u8, lower_digit(b as int / 16), lower_digit(b as int % 16)]
}

/// Both digit tables are read back as the nibble they stand for.
proof fn lemma_digits(n: int)
    requires
        0 <= n < 16,
    ensures
        spec_is_hex(lower_digit(n)),
        spec_is_hex(upper_digit(n)),
        spec_hex_val(lower_digit(n)) == n,
        spec_hex_val(upper_digit(n)) == n,
        lower_digit(n) != 0x25 && lower_digit(n) != 0x2b,
{
}

/// `%xy` with lowercase digits is a well-formed `%XX` that denotes `b`.
proof fn lemma_pct_triple_lower(b: u8)
    ensures
        pct_triple_lower(b).len() == 3,
        is_pct_at(pct_triple_lower(b), 0),
        pct_value(pct_triple_lower(b), 0) == b,
{
    lemma_digits(b as int / 16);
    lemma_digits(b as int % 16);
    assert(b as int == (b as int / 16) * 16 + b as int % 16) by (nonlinear_arith);
}

/// **Hex digits read back.** Every nibble written with either digit table
/// (the uppercase one the encoders use, or the lowercase one) is read back
/// as that nibble, and both are hex digits: hex digits are
/// case-insensitive.
pub proof fn law_hex_digits_read_back(n: int)
    requires
        0 <= n < 16,
    ensures
        spec_is_hex(HEX_UPPER@[n]) && spec_hex_val(HEX_UPPER@[n]) == n,
        spec_is_hex(HEX_LOWER@[n]) && spec_hex_val(HEX_LOWER@[n]) == n,
        spec_hex_val(HEX_LOWER@[n]) == spec_hex_val(HEX_UPPER@[n]),
{
    lemma_hex_tables();
    lemma_digits(n);
}

proof fn lemma_decode_replacing_shift(p: Seq<u8>, r: Seq<u8>, k: int)
    requires
        0 <= k <= r.len(),
    ensures
        decode_replacing_from(p + r, p.len() + k) == decode_replacing_from(r, k),
    decreases r.len() - k,
{
    if k < r.len() {
        lemma_pct_at_shift(p, r, k);
        if is_pct_at(r, k) {
            lemma_decode_replacing_shift(p, r, k + 3);
        } else {
            lemma_decode_replacing_shift(p, r, k + 1);
        }
    }
}

proof fn lemma_norm_shift(p: Seq<u8>, r: Seq<u8>, k: int)
    requires
        0 <= k <= r.len(),
    ensures
        norm_from(p + r, p.len() + k) == norm_from(r, k),
    decreases r.len() - k,
{
    if k < r.len() {
        lemma_pct_at_shift(p, r, k);
        if is_pct_at(r, k) {
            lemma_norm_shift(p, r, k + 3);
        } else {
            lemma_norm_shift(p, r, k + 1);
        }
    }
}

/// The decoders read a `%XX` at the front of `t + r` as its byte, then `r`.
proof fn lemma_leading_pct(t: Seq<u8>, r: Seq<u8>, b: u8)
    requires
        t.len() == 3,
        is_pct_at(t, 0),
        pct_value(t, 0) == b,
    ensures
        decode_pct(t + r) == seq![b] + decode_pct(r),
        decode_replacing(t + r) == seq![b] + decode_replacing(r),
        form_decode(t + r) == seq![b] + form_decode(r),
        is_valid_pct(t + r) == is_valid_pct(r),
        normalize_pct(t + r) == (if spec_is_unreserved(b) {
            seq![b]
        } else {
            pct_triple(b)
        }) + normalize_pct(r),
        needs_norm_from(t + r, 0) == (spec_is_ascii_lowercase(t[1]) || spec_is_ascii_lowercase(t[2])
            || spec_is_unreserved(b) || needs_norm_from(r, 0)),
{
    let x = t + r;
    assert(x[0] == t[0] && x[1] == t[1] && x[2] == t[2]);
    assert(is_pct_at(x, 0));
    assert(pct_value(x, 0) == b);
    lemma_decode_shift(t, r, 0);
    lemma_decode_replacing_shift(t, r, 0);
    lemma_form_decode_shift(t, r, 0);
    lemma_first_invalid_shift(t, r, 0);
    lemma_norm_shift(t, r, 0);
    lemma_needs_norm_shift(t, r, 0);
}

/// **`%XX` is read whatever the case of its digits.** For every byte `b`
/// and every rest `r`: decoding, lossy decoding and form decoding read
/// `%xy` (lowercase digits) and `%XY` (uppercase digits) at the front as
/// `b`, then go on with `r`; neither makes the input invalid.
pub proof fn law_escape_is_read_in_either_case(b: u8, r: Seq<u8>)
    ensures
        decode_pct(pct_triple_lower(b) + r) == seq![b] + decode_pct(r),
        decode_pct(pct_triple(b) + r) == seq![b] + decode_pct(r),
        decode_replacing(pct_triple_lower(b) + r) == seq![b] + decode_replacing(r),
        decode_replacing(pct_triple(b) + r) == seq![b] + decode_replacing(r),
        form_decode(pct_triple_lower(b) + r) == seq![b] + form_decode(r),
        form_decode(pct_triple(b) + r) == seq![b] + form_decode(r),
        is_valid_pct(pct_triple_lower(b) + r) == is_valid_pct(r),
        is_valid_pct(pct_triple(b) + r) == is_valid_pct(r),
{
    lemma_pct_triple_lower(b);
    lemma_pct_triple(b);
    lemma_leading_pct(pct_triple_lower(b), r, b);
    lemma_leading_pct(pct_triple(b), r, b);
}

/// Validity from `i` on: every `%` there is followed by two hex digits.
proof fn lemma_valid_from(s: Seq<u8>, i: int)
    requires
        0 <= i <= s.len(),
    ensures
        first_invalid_from(s, i) is None <==> (forall|j: int|
            i <= j < s.len() && #[trigger] s[j] == 0x25 ==> j + 2 < s.len() && spec_is_hex(s[j + 1])
                && spec_is_hex(s[j + 2])),
    decreases s.len() - i,
{
    if i < s.len() {
        if is_pct_at(s, i) {
            lemma_valid_from(s, i + 3);
        } else {
            lemma_valid_from(s, i + 1);
        }
    }
}

/// **What validity means.** An input is valid (so [`crate::is_valid`] holds
/// and [`crate::decode_strict`] reports no `%` error) exactly when every
/// `%` in it is followed by two hex digits, of either case.
pub proof fn law_valid_iff_every_pct_has_two_hex_digits(s: Seq<u8>)
    ensures
        is_valid_pct(s) <==> (forall|j: int|
            0 <= j < s.len() && #[trigger] s[j] == 0x25 ==> j + 2 < s.len() && spec_is_hex(s[j + 1])
                && spec_is_hex(s[j + 2])),
{
    lemma_valid_from(s, 0);
}

/// Form encoding from `i` on writes only unreserved bytes, `%` and `+`.
proof fn lemma_form_output_bytes(s: Seq<u8>, force_high: bool, i: int)
    requires
        0 <= i <= s.len(),
    ensures
        forall|j: int|
            0 <= j < form_from(s, force_high, i).len() ==> {
                let c = #[trigger] form_from(s, force_high, i)[j];
                rfc3986_unreserved(c) || c == 0x25 || c == 0x2b
            },
    decreases s.len() - i,
{
    if i < s.len() {
        lemma_form_output_bytes(s, force_high, i + 1);
        let piece = form_byte(s[i], force_high);
        let rest = form_from(s, force_high, i + 1);
        lemma_digits(s[i] as int / 16);
        lemma_digits(s[i] as int % 16);
        assert forall|j: int| 0 <= j < (piece + rest).len() implies {
            let c = #[trigger] (piece + rest)[j];
            rfc3986_unreserved(c) || c == 0x25 || c == 0x2b
        } by {
            if j >= piece.len() {
                assert((piece + rest)[j] == rest[j - piece.len()]);
            }
        }
    }
}

/// **Form encoding escapes the component set.** Every byte that
/// [`crate::encode_form`] writes is an unreserved byte of RFC 3986, a `%`
/// (starting a `%XY`) or a `+` (for a space): every other byte, `#`, `&`,
/// `=` and `+` among them, is escaped.
pub proof fn law_form_encoding_writes_only_unreserved(s: Seq<u8>, force_high: bool)
    ensures
        forall|j: int|
            0 <= j < form_encode(s, force_high).len() ==> {
                let c = #[trigger] form_encode(s, force_high)[j];
                rfc3986_unreserved(c) || c == 0x25 || c == 0x2b
            },
        is_valid_pct(form_encode(s, force_high)),
{
    lemma_form_output_bytes(s, force_high, 0);
    lemma_form_valid(s, force_high, 0);
}

/// Form encoding from `i` on leaves no stray `%`.
proof fn lemma_form_valid(s: Seq<u8>, force_high: bool, i: int)
    requires
        0 <= i <= s.len(),
    ensures
        first_invalid_from(form_from(s, force_high, i), 0) is None,
    decreases s.len() - i,
{
    if i < s.len() {
        let piece = form_byte(s[i], force_high);
        let rest = form_from(s, force_high, i + 1);
        let out = piece + rest;
        lemma_form_valid(s, force_high, i + 1);
        lemma_first_invalid_shift(piece, rest, 0);
        lemma_pct_triple(s[i]);
        if piece.len() == 3 {
            assert(out[0] == piece[0] && out[1] == piece[1] && out[2] == piece[2]);
            assert(is_pct_at(out, 0));
        } else {
            assert(out[0] == piece[0]);
            assert(piece[0] != 0x25);
            assert(!is_pct_at(out, 0));
        }
    }
}

/// Form decoding from `i` on of input without `+` is decoding.
proof fn lemma_form_decode_without_plus(s: Seq<u8>, i: int)
    requires
        0 <= i <= s.len(),
        !s.contains(0x2b),
    ensures
        form_decode_from(s, i) == decode_from(s, i),
    decreases s.len() - i,
{
    if i < s.len() {
        assert(s[i] != 0x2b) by {
            if s[i] == 0x2b {
                assert(s.contains(s[i]));
            }
        }
        if is_pct_at(s, i) {
            lemma_form_decode_without_plus(s, i + 3);
        } else {
            lemma_form_decode_without_plus(s, i + 1);
        }
    }
}

/// **Form decoding is decoding plus `+`.** On input without `+`,
/// [`crate::decode_form`] decodes exactly as [`crate::decode_bytes`] does:
/// every `%XX`, whatever the case of its digits.
pub proof fn law_form_decoding_without_plus_is_decoding(s: Seq<u8>)
    requires
        !s.contains(0x2b),
    ensures
        form_decode(s) == decode_pct(s),
{
    lemma_form_decode_without_plus(s, 0);
}

/// **Normalization decodes only unreserved bytes.** For every byte `b` and
/// rest `r`, a `%XX` of `b` at the front, in either case, becomes `b` when
/// `b` is unreserved (RFC 3986) and stays the escape `%XY` (uppercase)
/// otherwise, so reserved bytes keep their meaning; a `%XY` of a reserved
/// byte needs no normalization of its own.
pub proof fn law_normalize_decodes_only_unreserved(b: u8, r: Seq<u8>)
    ensures
        !rfc3986_unreserved(b) ==> normalize_pct(pct_triple(b) + r) == pct_triple(b)
            + normalize_pct(r),
        !rfc3986_unreserved(b) ==> normalize_pct(pct_triple_lower(b) + r) == pct_triple(b)
            + normalize_pct(r),
        rfc3986_unreserved(b) ==> normalize_pct(pct_triple(b) + r) == seq![b] + normalize_pct(r),
        rfc3986_unreserved(b) ==> normalize_pct(pct_triple_lower(b) + r) == seq![b]
            + normalize_pct(r),
        !rfc3986_unreserved(b) ==> needs_norm_from(pct_triple(b) + r, 0) == needs_norm_from(r, 0),
{
    lemma_pct_triple_lower(b);
    lemma_pct_triple(b);
    lemma_leading_pct(pct_triple_lower(b), r, b);
    lemma_leading_pct(pct_triple(b), r, b);
}

/// **Normalization borrows exactly when it changes nothing.**
/// [`crate::normalize`] returns its input borrowed exactly when the
/// normalized text equals the input.
pub proof fn law_normalize_borrows_iff_unchanged(s: Seq<u8>)
    ensures
        !needs_norm_from(s, 0) <==> normalize_pct(s) == s,
{
    lemma_norm_unchanged(s, 0);
    assert(s.subrange(0, s.len() as int) =~= s);
}

} // verus!
