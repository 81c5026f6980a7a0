//! Percent-decoding: lossy, strict, passthrough and raw-byte modes.
use crate::hex::{decode_hex_pair, is_hex};
use crate::model::{
    decode_from, decode_pct, decode_replacing, decode_replacing_from, first_invalid_from, has_pct,
};
use crate::scan::find_first_byte;
use crate::lossy::{lemma_lossy_utf8_of_valid, lossy_utf8};
use crate::text::{
    bytes_to_text_lossy, lemma_ascii_valid_utf8, lemma_text_bytes, string_from_utf8,
    valid_bytes_to_string,
};
use crate::model::all_ascii;
use std::borrow::Cow;
use vstd::prelude::*;
use vstd::string::{StringExecFns, StringSliceAdditionalSpecFns};
use vstd::utf8::{decode_utf8, valid_utf8};

verus! {

/// Errors that can occur during percent-decoding.
#[derive(Debug, Clone, PartialEq, Eq)]
pub enum DecodeError {
    /// A `%` is not followed by two valid hex digits.
    InvalidHex {
        /// Byte offset where the invalid sequence starts.
        position: usize,
    },
    /// A `%` appears at the end of the string or is followed by only one
    /// character.
    TruncatedSequence {
        /// Byte offset where the truncated sequence starts.
        position: usize,
    },
    /// The decoded bytes are not valid UTF-8.
    InvalidUtf8 {
        /// Length of the longest valid UTF-8 prefix of the decoded bytes.
        position: usize,
    },
}

/// The error for the stray `%` at position `p` of `s`: truncated when fewer
/// than two bytes follow it, invalid hex otherwise.
pub open spec fn sequence_error(s: Seq<u8>, p: int) -> DecodeError {
    if p + 2 >= s.len() {
        DecodeError::TruncatedSequence { position: p as usize }
    } else {
        DecodeError::InvalidHex { position: p as usize }
    }
}

/// `p` is the length of the longest prefix of `d` that is valid UTF-8.
pub open spec fn is_longest_valid_prefix(d: Seq<u8>, p: int) -> bool {
    &&& 0 <= p <= d.len()
    &&& valid_utf8(d.take(p))
    &&& forall|q: int| p < q <= d.len() ==> !valid_utf8(#[trigger] d.take(q))
}

/// What strict decoding of `s` yields as bytes: the decoded bytes, or the
/// error for the first stray `%`.
pub open spec fn strict_bytes(s: Seq<u8>) -> Result<Seq<u8>, DecodeError> {
    match first_invalid_from(s, 0) {
        Some(p) => Err(sequence_error(s, p)),
        None => Ok(decode_pct(s)),
    }
}

/// ASCII decimal digits of `n`, most significant first.
pub open spec fn decimal_digits(n: nat) -> Seq<u8>
    decreases n,
{
    if n < 10 {
        seq![(0x30 + n) as u8]
    } else {
        decimal_digits(n / 10) + seq![(0x30 + n % 10) as u8]
    }
}

/// The decimal rendering of `n` as text.
pub open spec fn decimal_text(n: nat) -> Seq<char> {
    decode_utf8(decimal_digits(n))
}

impl DecodeError {
    /// A human-readable description of the error.
    pub fn message(&self) -> (r: String)
        ensures
            r@ == match self {
                DecodeError::InvalidHex { position } =>
                    "invalid percent-encoded hex at byte position "@ + decimal_text(
                        *position as nat,
                    ),
                DecodeError::TruncatedSequence { position } =>
                    "truncated percent-encoded sequence at byte position "@ + decimal_text(
                        *position as nat,
                    ),
                DecodeError::InvalidUtf8 { position } =>
                    "decoded bytes are not valid UTF-8 near byte position "@ + decimal_text(
                        *position as nat,
                    ),
            },
    {
        let (mut text, position) = match self {
            DecodeError::InvalidHex { position } => (
                "invalid percent-encoded hex at byte position ".to_owned(),
                *position,
            ),
            DecodeError::TruncatedSequence { position } => (
                "truncated percent-encoded sequence at byte position ".to_owned(),
                *position,
            ),
            DecodeError::InvalidUtf8 { position } => (
                "decoded bytes are not valid UTF-8 near byte position ".to_owned(),
                *position,
            ),
        };
        let mut digits: Vec<u8> = Vec::new();
        push_decimal(&mut digits, position);
        proof {
            lemma_decimal_ascii(position as nat);
            lemma_ascii_valid_utf8(decimal_digits(position as nat));
        }
        let digits = valid_bytes_to_string(digits);
        text.append(digits.as_str());
        text
    }
}

/// Append the decimal digits of `n`.
fn push_decimal(out: &mut Vec<u8>, n: usize)
    ensures
        final(out)@ == old(out)@ + decimal_digits(n as nat),
    decreases n,
{
    if n >= 10 {
        push_decimal(out, n / 10);
    }
    out.push((0x30 + n % 10) as u8);
    proof {
        assert(final(out)@ =~= old(out)@ + decimal_digits(n as nat));
    }
}

proof fn lemma_decimal_ascii(n: nat)
    ensures
        all_ascii(decimal_digits(n)),
    decreases n,
{
    if n >= 10 {
        lemma_decimal_ascii(n / 10);
        crate::model::lemma_ascii_concat(decimal_digits(n / 10), seq![(0x30 + n % 10) as u8]);
    }
}

/// Percent-decode a string, replacing invalid sequences with `U+FFFD`: a
/// `%` that starts no `%XX` becomes `U+FFFD`, and so does invalid UTF-8 in
/// the decoded bytes. Returns the input borrowed when it holds no `%`.
pub fn decode(input: &str) -> (r: Cow<'_, str>)
    ensures
        r@ == lossy_utf8(decode_replacing(input.spec_bytes())),
        (r matches Cow::Borrowed(_)) <==> !has_pct(input.spec_bytes()),
{
    let bytes = input.as_bytes();
    if !needs_decoding(bytes) {
        proof {
            lemma_decode_without_pct(bytes@, 0);
            lemma_text_bytes(input@);
            lemma_lossy_utf8_of_valid(bytes@);
        }
        return Cow::Borrowed(input);
    }
    let raw = do_decode_replacing(bytes);
    Cow::Owned(bytes_to_text_lossy(raw))
}

/// Lossy decoding pass: each `%XX` becomes its byte, a `%` that starts no
/// `%XX` becomes the UTF-8 encoding of `U+FFFD`.
fn do_decode_replacing(input: &[u8]) -> (out: Vec<u8>)
    ensures
        out@ == decode_replacing(input@),
{
    let ghost s = input@;
    let mut out: Vec<u8> = Vec::with_capacity(input.len());
    let mut i: usize = 0;
    let len = input.len();
    while i < len
        invariant
            len == s.len(),
            s == input@,
            i <= len,
            decode_replacing(s) == out@ + decode_replacing_from(s, i as int),
        decreases len - i,
    {
        if input[i] == 0x25 {
            if len - i > 2 && is_hex(input[i + 1]) && is_hex(input[i + 2]) {
                let byte = decode_hex_pair(input[i + 1], input[i + 2]);
                out.push(byte);
                i = i + 3;
                continue;
            }
            out.push(0xef);
            out.push(0xbf);
            out.push(0xbd);
            i = i + 1;
            continue;
        }
        out.push(input[i]);
        i = i + 1;
    }
    out
}

/// Percent-decode a string strictly: every `%` must start a `%XX` and the
/// decoded bytes must be valid UTF-8.
pub fn decode_strict(input: &str) -> (r: Result<Cow<'_, str>, DecodeError>)
    ensures
        match strict_bytes(input.spec_bytes()) {
            Err(e) => r == Err::<Cow<'_, str>, DecodeError>(e),
            Ok(d) => if valid_utf8(d) {
                r is Ok && r->Ok_0@ == decode_utf8(d)
            } else {
                r is Err && (r->Err_0 matches DecodeError::InvalidUtf8 { position }
                    && is_longest_valid_prefix(d, position as int))
            },
        },
        (r matches Ok(Cow::Borrowed(_))) <==> !has_pct(input.spec_bytes()),
{
    let bytes = input.as_bytes();
    if !needs_decoding(bytes) {
        proof {
            lemma_decode_without_pct(bytes@, 0);
            lemma_text_bytes(input@);
            lemma_lossy_utf8_of_valid(bytes@);
        }
        return Ok(Cow::Borrowed(input));
    }
    let decoded = match do_decode_strict(bytes) {
        Ok(v) => v,
        Err(e) => {
            return Err(e);
        },
    };
    match string_from_utf8(decoded) {
        Ok(s) => Ok(Cow::Owned(s)),
        Err(rejected) => Err(DecodeError::InvalidUtf8 { position: rejected.valid_up_to }),
    }
}

/// Percent-decode a string, leaving a `%` that starts no `%XX` as it is;
/// invalid UTF-8 in the result becomes `U+FFFD`.
pub fn decode_passthrough(input: &str) -> (r: Cow<'_, str>)
    ensures
        r@ == lossy_utf8(decode_pct(input.spec_bytes())),
        (r matches Cow::Borrowed(_)) <==> !has_pct(input.spec_bytes()),
{
    let bytes = input.as_bytes();
    if !needs_decoding(bytes) {
        proof {
            lemma_decode_without_pct(bytes@, 0);
            lemma_text_bytes(input@);
            lemma_lossy_utf8_of_valid(bytes@);
        }
        return Cow::Borrowed(input);
    }
    let raw = do_decode_passthrough(bytes);
    Cow::Owned(bytes_to_text_lossy(raw))
}

/// Percent-decode to raw bytes, with no UTF-8 validation. Returns the
/// input's bytes borrowed when it holds no `%`.
pub fn decode_bytes(input: &str) -> (r: Cow<'_, [u8]>)
    ensures
        r@ == decode_pct(input.spec_bytes()),
        (r matches Cow::Borrowed(_)) <==> !has_pct(input.spec_bytes()),
{
    let bytes = input.as_bytes();
    if !needs_decoding(bytes) {
        proof {
            lemma_decode_without_pct(bytes@, 0);
        }
        return Cow::Borrowed(bytes);
    }
    Cow::Owned(do_decode_to_bytes(bytes))
}

/// The input holds a `%`.
fn needs_decoding(input: &[u8]) -> (r: bool)
    ensures
        r == has_pct(input@),
{
    let found = find_first_byte(input, 0x25);
    proof {
        if let Some(k) = found {
            assert(input@[k as int] == 0x25u8);
        }
    }
    found.is_some()
}

/// Strict decoding pass: the first `%` that starts no `%XX` is an error.
fn do_decode_strict(input: &[u8]) -> (r: Result<Vec<u8>, DecodeError>)
    ensures
        match r {
            Ok(v) => strict_bytes(input@) == Ok::<Seq<u8>, DecodeError>(v@),
            Err(e) => strict_bytes(input@) == Err::<Seq<u8>, DecodeError>(e),
        },
{
    let ghost s = input@;
    let mut out: Vec<u8> = Vec::with_capacity(input.len());
    let mut i: usize = 0;
    let len = input.len();
    while i < len
        invariant
            len == s.len(),
            s == input@,
            i <= len,
            first_invalid_from(s, 0) == first_invalid_from(s, i as int),
            decode_pct(s) == out@ + decode_from(s, i as int),
        decreases len - i,
    {
        if input[i] == 0x25 {
            if len - i <= 2 {
                return Err(DecodeError::TruncatedSequence { position: i });
            }
            if !is_hex(input[i + 1]) || !is_hex(input[i + 2]) {
                return Err(DecodeError::InvalidHex { position: i });
            }
            let byte = decode_hex_pair(input[i + 1], input[i + 2]);
            out.push(byte);
            i = i + 3;
            continue;
        }
        out.push(input[i]);
        i = i + 1;
    }
    Ok(out)
}

/// Passthrough decoding pass: a `%` that starts no `%XX` is copied.
fn do_decode_passthrough(input: &[u8]) -> (out: Vec<u8>)
    ensures
        out@ == decode_pct(input@),
{
    let ghost s = input@;
    let mut out: Vec<u8> = Vec::with_capacity(input.len());
    let mut i: usize = 0;
    let len = input.len();
    while i < len
        invariant
            len == s.len(),
            s == input@,
            i <= len,
            decode_pct(s) == out@ + decode_from(s, i as int),
        decreases len - i,
    {
        if input[i] == 0x25 {
            if len - i > 2 && is_hex(input[i + 1]) && is_hex(input[i + 2]) {
                let byte = decode_hex_pair(input[i + 1], input[i + 2]);
                out.push(byte);
                i = i + 3;
                continue;
            }
            out.push(0x25);
            i = i + 1;
            continue;
        }
        out.push(input[i]);
        i = i + 1;
    }
    out
}

/// Byte decoding pass: each `%XX` becomes its byte, everything else is
/// copied.
pub(crate) fn do_decode_to_bytes(input: &[u8]) -> (out: Vec<u8>)
    ensures
        out@ == decode_pct(input@),
{
    let ghost s = input@;
    let mut out: Vec<u8> = Vec::with_capacity(input.len());
    let mut i: usize = 0;
    let len = input.len();
    while i < len
        invariant
            len == s.len(),
            s == input@,
            i <= len,
            decode_pct(s) == out@ + decode_from(s, i as int),
        decreases len - i,
    {
        if input[i] == 0x25 && len - i > 2 && is_hex(input[i + 1]) && is_hex(input[i + 2]) {
            let byte = decode_hex_pair(input[i + 1], input[i + 2]);
            out.push(byte);
            i = i + 3;
            continue;
        }
        out.push(input[i]);
        i = i + 1;
    }
    out
}

/// Without any `%`, decoding from `i` on copies the input and finds no
/// invalid sequence.
pub proof fn lemma_decode_without_pct(s: Seq<u8>, i: int)
    requires
        0 <= i <= s.len(),
        !has_pct(s),
    ensures
        decode_from(s, i) == s.subrange(i, s.len() as int),
        decode_replacing_from(s, i) == s.subrange(i, s.len() as int),
        first_invalid_from(s, i) is None,
        i == 0 ==> decode_pct(s) == s && decode_replacing(s) == s,
    decreases s.len() - i,
{
    assert(s.subrange(0, s.len() as int) =~= s);
    if i < s.len() {
        assert(s[i] != 0x25u8) by {
            if s[i] == 0x25u8 {
                assert(s.contains(0x25u8));
            }
        }
        lemma_decode_without_pct(s, i + 1);
        assert(s.subrange(i, s.len() as int) =~= seq![s[i]] + s.subrange(i + 1, s.len() as int));
    } else {
        assert(s.subrange(i, s.len() as int) =~= Seq::<u8>::empty());
    }
}

} // verus!
