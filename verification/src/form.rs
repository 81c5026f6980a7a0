//! `application/x-www-form-urlencoded` encoding and decoding.
use crate::encode::push_pct_triple;
use crate::hex::{decode_hex_pair, is_hex};
use crate::model::{
    form_decode, form_decode_from, form_encode, form_from, lemma_form_ascii,
    };
use crate::set::EncodeSet;
use crate::text::{bytes_to_text_lossy, lemma_ascii_valid_utf8, lemma_text_bytes, valid_bytes_to_string};
use crate::lossy::{lemma_lossy_utf8_of_valid, lossy_utf8};
use std::borrow::Cow;
use vstd::prelude::*;
use vstd::string::StringSliceAdditionalSpecFns;
use vstd::utf8::encode_utf8;

verus! {

/// `s` holds a `+` or a `%`: form decoding has something to do.
pub open spec fn has_form_escape(s: Seq<u8>) -> bool {
    s.contains(0x2bu8) || s.contains(0x25u8)
}

/// Encode a string for `application/x-www-form-urlencoded`: spaces become
/// `+`, bytes of the component set (a literal `+` included) become `%XY`.
pub fn encode_form(input: &str) -> (r: String)
    ensures
        encode_utf8(r@) == form_encode(input.spec_bytes(), false),
{
    let out = encode_form_impl(input.as_bytes(), false);
    proof {
        lemma_form_ascii(input.spec_bytes(), false, 0);
        lemma_ascii_valid_utf8(form_encode(input.spec_bytes(), false));
    }
    valid_bytes_to_string(out)
}

/// Encode binary data for `application/x-www-form-urlencoded`; as
/// [`encode_form`], with every byte `0x80–0xFF` percent-encoded.
pub fn encode_form_bytes(input: &[u8]) -> (r: String)
    ensures
        encode_utf8(r@) == form_encode(input@, true),
{
    let out = encode_form_impl(input, true);
    proof {
        lemma_form_ascii(input@, true, 0);
        lemma_ascii_valid_utf8(form_encode(input@, true));
    }
    valid_bytes_to_string(out)
}

/// The form encoding pass over bytes.
fn encode_form_impl(input: &[u8], force_high: bool) -> (out: Vec<u8>)
    ensures
        out@ == form_encode(input@, force_high),
{
    let set = EncodeSet::component();
    let mut out: Vec<u8> = Vec::with_capacity(input.len());
    let mut i: usize = 0;
    while i < input.len()
        invariant
            i <= input@.len(),
            set@ == crate::set::component_bytes(),
            form_encode(input@, force_high) == out@ + form_from(input@, force_high, i as int),
        decreases input@.len() - i,
    {
        let byte = input[i];
        if byte == 0x20 {
            out.push(0x2b);
        } else if set.contains(byte) || (force_high && byte >= 0x80) {
            push_pct_triple(&mut out, byte);
        } else {
            out.push(byte);
        }
        i = i + 1;
    }
    out
}

/// Decode an `application/x-www-form-urlencoded` string: `+` becomes a
/// space, `%XX` its byte, a `%` that starts no `%XX` is copied; invalid
/// UTF-8 in the result becomes `U+FFFD`. Returns the input borrowed when it
/// holds no `+` and no `%`.
pub fn decode_form(input: &str) -> (r: Cow<'_, str>)
    ensures
        r@ == lossy_utf8(form_decode(input.spec_bytes())),
        (r matches Cow::Borrowed(_)) <==> !has_form_escape(input.spec_bytes()),
{
    let bytes = input.as_bytes();
    let ghost s = bytes@;
    let mut needs_decoding = false;
    let mut k: usize = 0;
    while k < bytes.len()
        invariant_except_break
            !needs_decoding,
        invariant
            s == bytes@,
            k <= s.len(),
            forall|j: int| 0 <= j < k ==> s[j] != 0x2b && s[j] != 0x25,
        ensures
            needs_decoding <==> has_form_escape(s),
        decreases s.len() - k,
    {
        if bytes[k] == 0x2b || bytes[k] == 0x25 {
            needs_decoding = true;
            assert(s.contains(s[k as int]));
            break;
        }
        k = k + 1;
    }
    if !needs_decoding {
        proof {
            lemma_form_decode_without_escape(s, 0);
            assert(s.subrange(0, s.len() as int) =~= s);
            lemma_text_bytes(input@);
            lemma_lossy_utf8_of_valid(s);
        }
        return Cow::Borrowed(input);
    }
    let mut out: Vec<u8> = Vec::with_capacity(bytes.len());
    let mut i: usize = 0;
    let len = bytes.len();
    while i < len
        invariant
            s == bytes@,
            len == s.len(),
            i <= len,
            form_decode(s) == out@ + form_decode_from(s, i as int),
        decreases len - i,
    {
        if bytes[i] == 0x2b {
            out.push(0x20);
            i = i + 1;
        } else if bytes[i] == 0x25 {
            if len - i > 2 && is_hex(bytes[i + 1]) && is_hex(bytes[i + 2]) {
                let byte = decode_hex_pair(bytes[i + 1], bytes[i + 2]);
                out.push(byte);
                i = i + 3;
            } else {
                out.push(0x25);
                i = i + 1;
            }
        } else {
            out.push(bytes[i]);
            i = i + 1;
        }
    }
    Cow::Owned(bytes_to_text_lossy(out))
}

/// Without `+` or `%`, form decoding copies the input.
proof fn lemma_form_decode_without_escape(s: Seq<u8>, i: int)
    requires
        0 <= i <= s.len(),
        !has_form_escape(s),
    ensures
        form_decode_from(s, i) == s.subrange(i, s.len() as int),
    decreases s.len() - i,
{
    if i < s.len() {
        assert(s[i] != 0x25u8 && s[i] != 0x2bu8) by {
            if s[i] == 0x25u8 || s[i] == 0x2bu8 {
                assert(s.contains(s[i]));
            }
        }
        lemma_form_decode_without_escape(s, i + 1);
        assert(s.subrange(i, s.len() as int) =~= seq![s[i]] + s.subrange(i + 1, s.len() as int));
    } else {
        assert(s.subrange(i, s.len() as int) =~= Seq::<u8>::empty());
    }
}

} // verus!
