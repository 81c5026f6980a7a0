//! Percent-encoding of strings and binary data.
use crate::hex::{decode_hex_pair, is_hex, lemma_hex_tables, HEX_UPPER};
use crate::model::{
    all_ascii, holds_high_bytes, holds_no_high_bytes, idem_encode, idem_from, is_pct_at,
    lemma_idem_ascii, lemma_pct_triple, lemma_raw_ascii, pct_triple, pct_value, raw_byte,
    raw_encode, raw_from,
};
use crate::scan::{needs_encoding_idempotent, needs_encoding_raw};
use crate::set::{component_bytes, EncodeSet};
use crate::text::{
    lemma_ascii_then_valid, lemma_ascii_valid_utf8, lemma_drop_ascii_prefix,
    lemma_first_scalar_parts, lemma_text_bytes, valid_bytes_to_string,
};
use std::borrow::Cow;
use vstd::prelude::*;
use vstd::string::StringSliceAdditionalSpecFns;
use vstd::utf8::{encode_utf8, length_of_first_scalar, valid_utf8};

verus! {

/// Percent-encode a string with the component set, idempotently.
///
/// Well-formed `%XX` sequences are kept (hex digits uppercased) and a bare
/// `%` becomes `%25`. Returns the input borrowed when nothing changes.
pub fn encode(input: &str) -> (r: Cow<'_, str>)
    ensures
        encode_utf8(r@) == idem_encode(input.spec_bytes(), component_bytes()),
        (r matches Cow::Borrowed(_)) <==> idem_encode(input.spec_bytes(), component_bytes())
            == input.spec_bytes(),
{
    let set = EncodeSet::component();
    proof {
        assert(holds_high_bytes(set@));
    }
    encode_with(input, &set)
}

/// Percent-encode a string with `set`, idempotently.
///
/// The output must be text: `set` holds every byte `>= 0x80` or none of
/// them, or the encoding is valid UTF-8 for this input.
pub fn encode_with<'a>(input: &'a str, set: &EncodeSet) -> (r: Cow<'a, str>)
    requires
        holds_high_bytes(set@) || holds_no_high_bytes(set@) || valid_utf8(
            idem_encode(input.spec_bytes(), set@),
        ),
    ensures
        encode_utf8(r@) == idem_encode(input.spec_bytes(), set@),
        (r matches Cow::Borrowed(_)) <==> idem_encode(input.spec_bytes(), set@)
            == input.spec_bytes(),
{
    let bytes = input.as_bytes();
    if !needs_encoding_idempotent(bytes, set) {
        return Cow::Borrowed(input);
    }
    proof {
        if holds_high_bytes(set@) {
            lemma_idem_ascii(bytes@, set@, 0);
            lemma_ascii_valid_utf8(idem_encode(bytes@, set@));
        } else if holds_no_high_bytes(set@) {
            lemma_text_bytes(input@);
            assert(bytes@.subrange(0, bytes@.len() as int) =~= bytes@);
            lemma_idem_valid_utf8(bytes@, set@, 0);
        }
    }
    Cow::Owned(do_encode_idempotent(bytes, set))
}

/// Percent-encode a string with `set` in **raw** mode: every byte in the
/// set is encoded, `%` included when the set holds it.
///
/// The output must be text: `set` holds every byte `>= 0x80` or none of
/// them, or the encoding is valid UTF-8 for this input.
pub fn encode_raw<'a>(input: &'a str, set: &EncodeSet) -> (r: Cow<'a, str>)
    requires
        holds_high_bytes(set@) || holds_no_high_bytes(set@) || valid_utf8(
            raw_encode(input.spec_bytes(), set@, false),
        ),
    ensures
        encode_utf8(r@) == raw_encode(input.spec_bytes(), set@, false),
        (r matches Cow::Borrowed(_)) <==> raw_encode(input.spec_bytes(), set@, false)
            == input.spec_bytes(),
{
    let bytes = input.as_bytes();
    if !needs_encoding_raw(bytes, set) {
        return Cow::Borrowed(input);
    }
    proof {
        if holds_high_bytes(set@) {
            lemma_raw_ascii(bytes@, set@, false, 0);
            lemma_ascii_valid_utf8(raw_encode(bytes@, set@, false));
        } else if holds_no_high_bytes(set@) {
            lemma_text_bytes(input@);
            assert(bytes@.subrange(0, bytes@.len() as int) =~= bytes@);
            lemma_raw_valid_utf8(bytes@, set@, 0);
        }
    }
    let out = encode_raw_bytes(bytes, set, false);
    Cow::Owned(valid_bytes_to_string(out))
}

/// Percent-encode arbitrary binary data with `set` in raw mode; bytes
/// `0x80–0xFF` are always encoded, so the output is ASCII.
pub fn encode_bytes(input: &[u8], set: &EncodeSet) -> (r: String)
    ensures
        encode_utf8(r@) == raw_encode(input@, set@, true),
{
    proof {
        lemma_raw_ascii(input@, set@, true, 0);
        lemma_ascii_valid_utf8(raw_encode(input@, set@, true));
    }
    let out = encode_raw_bytes(input, set, true);
    valid_bytes_to_string(out)
}

/// Idempotent encoding pass, as text.
fn do_encode_idempotent(input: &[u8], set: &EncodeSet) -> (r: String)
    requires
        valid_utf8(idem_encode(input@, set@)),
    ensures
        encode_utf8(r@) == idem_encode(input@, set@),
{
    let out = encode_idempotent_bytes(input, set);
    valid_bytes_to_string(out)
}

/// Append `%XY`, the byte `b` with uppercase hex digits.
pub(crate) fn push_pct_triple(out: &mut Vec<u8>, b: u8)
    ensures
        final(out)@ == old(out)@ + pct_triple(b),
{
    proof {
        lemma_hex_tables();
    }
    out.push(0x25);
    out.push(HEX_UPPER[(b / 16) as usize]);
    out.push(HEX_UPPER[(b % 16) as usize]);
}

/// Idempotent encoding pass over bytes.
pub(crate) fn encode_idempotent_bytes(input: &[u8], set: &EncodeSet) -> (out: Vec<u8>)
    ensures
        out@ == idem_encode(input@, set@),
{
    let ghost s = input@;
    let mut out: Vec<u8> = Vec::with_capacity(input.len());
    let mut i: usize = 0;
    let len = input.len();
    while i < len
        invariant
            len == s.len(),
            s == input@,
            i <= len,
            idem_encode(s, set@) == out@ + idem_from(s, set@, i as int),
        decreases len - i,
    {
        let byte = input[i];
        if byte == 0x25 {
            if len - i > 2 && is_hex(input[i + 1]) && is_hex(input[i + 2]) {
                let v = decode_hex_pair(input[i + 1], input[i + 2]);
                assert(is_pct_at(s, i as int) && v == pct_value(s, i as int));
                push_pct_triple(&mut out, v);
                i = i + 3;
                continue;
            }
            push_pct_triple(&mut out, 0x25);
            i = i + 1;
            continue;
        }
        if set.contains(byte) {
            push_pct_triple(&mut out, byte);
        } else {
            out.push(byte);
        }
        i = i + 1;
    }
    out
}

/// Raw encoding pass over bytes: every byte in `set` (and, with
/// `force_high`, every byte `>= 0x80`) becomes `%XY`.
pub(crate) fn encode_raw_bytes(input: &[u8], set: &EncodeSet, force_high: bool) -> (out: Vec<u8>)
    ensures
        out@ == raw_encode(input@, set@, force_high),
{
    let mut out: Vec<u8> = Vec::with_capacity(input.len());
    let mut i: usize = 0;
    while i < input.len()
        invariant
            i <= input@.len(),
            raw_encode(input@, set@, force_high) == out@ + raw_from(
                input@,
                set@,
                force_high,
                i as int,
            ),
        decreases input@.len() - i,
    {
        let byte = input[i];
        if set.contains(byte) || (force_high && byte >= 0x80) {
            push_pct_triple(&mut out, byte);
        } else {
            out.push(byte);
        }
        i = i + 1;
    }
    out
}

/// Idempotent encoding copies bytes that are neither `%` nor in `set`.
proof fn lemma_idem_copy(s: Seq<u8>, set: Set<u8>, i: int, j: int)
    requires
        0 <= i <= j <= s.len(),
        forall|k: int| i <= k < j ==> #[trigger] s[k] != 0x25 && !set.contains(s[k]),
    ensures
        idem_from(s, set, i) == s.subrange(i, j) + idem_from(s, set, j),
    decreases j - i,
{
    if i < j {
        lemma_idem_copy(s, set, i + 1, j);
        assert(s.subrange(i, j) =~= seq![s[i]] + s.subrange(i + 1, j));
    } else {
        assert(s.subrange(i, j) =~= Seq::<u8>::empty());
    }
}

/// Raw encoding copies bytes that are not in `set`.
proof fn lemma_raw_copy(s: Seq<u8>, set: Set<u8>, i: int, j: int)
    requires
        0 <= i <= j <= s.len(),
        forall|k: int| i <= k < j ==> !set.contains(#[trigger] s[k]),
    ensures
        raw_from(s, set, false, i) == s.subrange(i, j) + raw_from(s, set, false, j),
    decreases j - i,
{
    if i < j {
        lemma_raw_copy(s, set, i + 1, j);
        assert(s.subrange(i, j) =~= seq![s[i]] + s.subrange(i + 1, j));
    } else {
        assert(s.subrange(i, j) =~= Seq::<u8>::empty());
    }
}

/// With a set that holds no byte `>= 0x80`, idempotent encoding of valid
/// UTF-8 is valid UTF-8: it rewrites ASCII into ASCII and copies the rest.
pub proof fn lemma_idem_valid_utf8(s: Seq<u8>, set: Set<u8>, i: int)
    requires
        holds_no_high_bytes(set),
        0 <= i <= s.len(),
        valid_utf8(s.subrange(i, s.len() as int)),
    ensures
        valid_utf8(idem_from(s, set, i)),
    decreases s.len() - i,
{
    if i < s.len() {
        let x = s.subrange(i, s.len() as int);
        lemma_first_scalar_parts(x);
        let w = length_of_first_scalar(x);
        lemma_pct_triple(0x25);
        lemma_pct_triple(s[i]);
        if is_pct_at(s, i) {
            lemma_pct_triple(pct_value(s, i));
            assert(x[0] == s[i] && x[1] == s[i + 1] && x[2] == s[i + 2]);
            lemma_drop_ascii_prefix(x, 3);
            assert(x.subrange(3, x.len() as int) =~= s.subrange(i + 3, s.len() as int));
            lemma_idem_valid_utf8(s, set, i + 3);
            lemma_ascii_then_valid(pct_triple(pct_value(s, i)), idem_from(s, set, i + 3));
        } else if s[i] < 0x80 {
            lemma_drop_ascii_prefix(x, 1);
            assert(x.subrange(1, x.len() as int) =~= s.subrange(i + 1, s.len() as int));
            lemma_idem_valid_utf8(s, set, i + 1);
            let piece = if s[i] == 0x25 {
                pct_triple(0x25)
            } else {
                raw_byte(s[i], set, false)
            };
            assert(all_ascii(piece));
            lemma_ascii_then_valid(piece, idem_from(s, set, i + 1));
        } else {
            assert forall|k: int| i <= k < i + w implies #[trigger] s[k] != 0x25 && !set.contains(
                s[k],
            ) by {
                assert(s[k] == x[k - i]);
            }
            lemma_idem_copy(s, set, i, i + w);
            assert(x.subrange(0, w) =~= s.subrange(i, i + w));
            assert(x.subrange(w, x.len() as int) =~= s.subrange(i + w, s.len() as int));
            lemma_idem_valid_utf8(s, set, i + w);
            vstd::utf8::valid_utf8_concat(s.subrange(i, i + w), idem_from(s, set, i + w));
        }
    }
}

/// With a set that holds no byte `>= 0x80`, raw encoding of valid UTF-8 is
/// valid UTF-8.
pub proof fn lemma_raw_valid_utf8(s: Seq<u8>, set: Set<u8>, i: int)
    requires
        holds_no_high_bytes(set),
        0 <= i <= s.len(),
        valid_utf8(s.subrange(i, s.len() as int)),
    ensures
        valid_utf8(raw_from(s, set, false, i)),
    decreases s.len() - i,
{
    if i < s.len() {
        let x = s.subrange(i, s.len() as int);
        lemma_first_scalar_parts(x);
        let w = length_of_first_scalar(x);
        lemma_pct_triple(s[i]);
        if s[i] < 0x80 {
            lemma_drop_ascii_prefix(x, 1);
            assert(x.subrange(1, x.len() as int) =~= s.subrange(i + 1, s.len() as int));
            lemma_raw_valid_utf8(s, set, i + 1);
            assert(all_ascii(raw_byte(s[i], set, false)));
            lemma_ascii_then_valid(raw_byte(s[i], set, false), raw_from(s, set, false, i + 1));
        } else {
            assert forall|k: int| i <= k < i + w implies !set.contains(#[trigger] s[k]) by {
                assert(s[k] == x[k - i]);
            }
            lemma_raw_copy(s, set, i, i + w);
            assert(x.subrange(0, w) =~= s.subrange(i, i + w));
            assert(x.subrange(w, x.len() as int) =~= s.subrange(i + w, s.len() as int));
            lemma_raw_valid_utf8(s, set, i + w);
            vstd::utf8::valid_utf8_concat(s.subrange(i, i + w), raw_from(s, set, false, i + w));
        }
    }
}

} // verus!
