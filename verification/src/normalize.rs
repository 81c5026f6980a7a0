//! Normalization of percent-encoded strings to their canonical form.
use crate::encode::push_pct_triple;
use crate::hex::{decode_hex_pair, is_hex, spec_is_hex};
use crate::model::{
    all_ascii, is_pct_at, lemma_pct_triple, needs_norm_from, norm_from, normalize_pct, pct_triple,
    pct_value,
};
use crate::scan::is_ascii_lowercase;
use crate::set::spec_is_unreserved;
use crate::text::{
    lemma_ascii_then_valid, lemma_drop_ascii_prefix, lemma_first_scalar_parts, lemma_text_bytes,
    valid_bytes_to_string,
};
use std::borrow::Cow;
use vstd::prelude::*;
use vstd::string::StringSliceAdditionalSpecFns;
use vstd::utf8::{encode_utf8, length_of_first_scalar, valid_utf8};

verus! {

/// Normalize a percent-encoded string to its canonical form: hex digits of
/// `%XX` sequences are uppercased, and `%XX` sequences of unreserved
/// characters are decoded. Returns the input borrowed when it is already
/// canonical.
pub fn normalize(input: &str) -> (r: Cow<'_, str>)
    ensures
        encode_utf8(r@) == normalize_pct(input.spec_bytes()),
        (r matches Cow::Borrowed(_)) <==> !needs_norm_from(input.spec_bytes(), 0),
{
    let bytes = input.as_bytes();
    if !needs_normalization(bytes) {
        proof {
            lemma_norm_unchanged(bytes@, 0);
            assert(bytes@.subrange(0, bytes@.len() as int) =~= bytes@);
        }
        return Cow::Borrowed(input);
    }
    proof {
        lemma_norm_unchanged(bytes@, 0);
        assert(bytes@.subrange(0, bytes@.len() as int) =~= bytes@);
        lemma_text_bytes(input@);
        lemma_norm_valid_utf8(bytes@, 0);
    }
    Cow::Owned(do_normalize(bytes))
}

/// Some `%XX` sequence has a lowercase digit or encodes an unreserved
/// character.
fn needs_normalization(input: &[u8]) -> (r: bool)
    ensures
        r == needs_norm_from(input@, 0),
{
    let ghost s = input@;
    let mut i: usize = 0;
    let len = input.len();
    while i < len
        invariant
            s == input@,
            len == s.len(),
            i <= len,
            needs_norm_from(s, 0) == needs_norm_from(s, i as int),
        decreases len - i,
    {
        if input[i] == 0x25 {
            if len - i > 2 && is_hex(input[i + 1]) && is_hex(input[i + 2]) {
                if is_ascii_lowercase(input[i + 1]) || is_ascii_lowercase(input[i + 2]) {
                    return true;
                }
                let decoded = decode_hex_pair(input[i + 1], input[i + 2]);
                if is_unreserved(decoded) {
                    return true;
                }
                i = i + 3;
            } else {
                i = i + 1;
            }
        } else {
            i = i + 1;
        }
    }
    false
}

/// The normalization pass, as text.
fn do_normalize(input: &[u8]) -> (r: String)
    requires
        valid_utf8(normalize_pct(input@)),
    ensures
        encode_utf8(r@) == normalize_pct(input@),
{
    let ghost s = input@;
    let mut out: Vec<u8> = Vec::with_capacity(input.len());
    let mut i: usize = 0;
    let len = input.len();
    while i < len
        invariant
            s == input@,
            len == s.len(),
            i <= len,
            normalize_pct(s) == out@ + norm_from(s, i as int),
        decreases len - i,
    {
        if input[i] == 0x25 && len - i > 2 && is_hex(input[i + 1]) && is_hex(input[i + 2]) {
            let decoded = decode_hex_pair(input[i + 1], input[i + 2]);
            if is_unreserved(decoded) {
                out.push(decoded);
            } else {
                push_pct_triple(&mut out, decoded);
            }
            i = i + 3;
        } else {
            out.push(input[i]);
            i = i + 1;
        }
    }
    valid_bytes_to_string(out)
}

/// RFC 3986 unreserved characters: `A-Z a-z 0-9 - . _ ~`.
pub(crate) fn is_unreserved(byte: u8) -> (r: bool)
    ensures
        r == spec_is_unreserved(byte),
{
    (0x41 <= byte && byte <= 0x5a) || (0x61 <= byte && byte <= 0x7a) || (0x30 <= byte && byte
        <= 0x39) || byte == 0x2d || byte == 0x2e || byte == 0x5f || byte == 0x7e
}

/// Normalization leaves the input from `i` on unchanged exactly when no
/// `%XX` there needs work.
pub proof fn lemma_norm_unchanged(s: Seq<u8>, i: int)
    requires
        0 <= i <= s.len(),
    ensures
        !needs_norm_from(s, i) <==> norm_from(s, i) == s.subrange(i, s.len() as int),
    decreases s.len() - i,
{
    let tail = s.subrange(i, s.len() as int);
    if i < s.len() {
        let out = norm_from(s, i);
        if is_pct_at(s, i) {
            lemma_norm_unchanged(s, i + 3);
            lemma_norm_len_le(s, i + 3);
            let rest = norm_from(s, i + 3);
            let v = pct_value(s, i);
            lemma_pct_triple(v);
            assert(tail =~= s.subrange(i, i + 3) + s.subrange(i + 3, s.len() as int));
            assert(tail.subrange(3, tail.len() as int) =~= s.subrange(i + 3, s.len() as int));
            if spec_is_unreserved(v) {
                assert(out.len() < tail.len());
            } else if spec_is_ascii_lowercase_at(s, i) {
                if out == tail {
                    assert(out[1] == pct_triple(v)[1]);
                    assert(out[2] == pct_triple(v)[2]);
                    assert(tail[1] == s[i + 1]);
                    assert(tail[2] == s[i + 2]);
                }
            } else {
                crate::model::lemma_pct_triple_of_value(s, i);
                if out == tail {
                    assert(rest =~= out.subrange(3, out.len() as int));
                }
                if rest == s.subrange(i + 3, s.len() as int) {
                    assert(out =~= tail);
                }
            }
        } else {
            lemma_norm_unchanged(s, i + 1);
            let rest = norm_from(s, i + 1);
            assert(tail =~= seq![s[i]] + s.subrange(i + 1, s.len() as int));
            assert(tail.subrange(1, tail.len() as int) =~= s.subrange(i + 1, s.len() as int));
            if out == tail {
                assert(rest =~= out.subrange(1, out.len() as int));
            }
            if rest == s.subrange(i + 1, s.len() as int) {
                assert(out =~= tail);
            }
        }
    } else {
        assert(tail =~= Seq::<u8>::empty());
    }
}

/// One of the two digits of the `%XX` at `i` is lowercase.
pub open spec fn spec_is_ascii_lowercase_at(s: Seq<u8>, i: int) -> bool {
    crate::hex::spec_is_ascii_lowercase(s[i + 1]) || crate::hex::spec_is_ascii_lowercase(s[i + 2])
}

/// Normalization never lengthens its input.
proof fn lemma_norm_len_le(s: Seq<u8>, i: int)
    requires
        0 <= i <= s.len(),
    ensures
        norm_from(s, i).len() <= s.len() - i,
    decreases s.len() - i,
{
    if i < s.len() {
        if is_pct_at(s, i) {
            lemma_norm_len_le(s, i + 3);
        } else {
            lemma_norm_len_le(s, i + 1);
        }
    }
}

/// Normalization copies bytes that are not `%` one by one.
proof fn lemma_norm_copy(s: Seq<u8>, i: int, j: int)
    requires
        0 <= i <= j <= s.len(),
        forall|k: int| i <= k < j ==> #[trigger] s[k] != 0x25,
    ensures
        norm_from(s, i) == s.subrange(i, j) + norm_from(s, j),
    decreases j - i,
{
    if i < j {
        lemma_norm_copy(s, i + 1, j);
        assert(s.subrange(i, j) =~= seq![s[i]] + s.subrange(i + 1, j));
    } else {
        assert(s.subrange(i, j) =~= Seq::<u8>::empty());
    }
}

/// Normalizing valid UTF-8 gives valid UTF-8: it only rewrites ASCII
/// `%XX` sequences into ASCII, and copies every other byte.
pub proof fn lemma_norm_valid_utf8(s: Seq<u8>, i: int)
    requires
        0 <= i <= s.len(),
        valid_utf8(s.subrange(i, s.len() as int)),
    ensures
        valid_utf8(norm_from(s, i)),
    decreases s.len() - i,
{
    if i < s.len() {
        let x = s.subrange(i, s.len() as int);
        lemma_first_scalar_parts(x);
        let w = length_of_first_scalar(x);
        if is_pct_at(s, i) {
            let v = pct_value(s, i);
            lemma_pct_triple(v);
            assert(x[0] == s[i] && x[1] == s[i + 1] && x[2] == s[i + 2]);
            assert(spec_is_hex(x[1]) && spec_is_hex(x[2]));
            lemma_drop_ascii_prefix(x, 3);
            assert(x.subrange(3, x.len() as int) =~= s.subrange(i + 3, s.len() as int));
            lemma_norm_valid_utf8(s, i + 3);
            let piece = if spec_is_unreserved(v) {
                seq![v]
            } else {
                pct_triple(v)
            };
            assert(all_ascii(piece));
            lemma_ascii_then_valid(piece, norm_from(s, i + 3));
        } else if s[i] < 0x80 {
            lemma_drop_ascii_prefix(x, 1);
            assert(x.subrange(1, x.len() as int) =~= s.subrange(i + 1, s.len() as int));
            lemma_norm_valid_utf8(s, i + 1);
            assert(all_ascii(seq![s[i]]));
            lemma_ascii_then_valid(seq![s[i]], norm_from(s, i + 1));
        } else {
            assert forall|k: int| i <= k < i + w implies #[trigger] s[k] != 0x25 by {
                assert(s[k] == x[k - i]);
            }
            lemma_norm_copy(s, i, i + w);
            assert(x.subrange(0, w) =~= s.subrange(i, i + w));
            assert(x.subrange(w, x.len() as int) =~= s.subrange(i + w, s.len() as int));
            lemma_norm_valid_utf8(s, i + w);
            vstd::utf8::valid_utf8_concat(s.subrange(i, i + w), norm_from(s, i + w));
        }
    }
}

} // verus!
