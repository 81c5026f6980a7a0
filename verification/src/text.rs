//! Turning byte sequences into `String`s: the calls into std's UTF-8
//! conversions, and the facts about ASCII that the encoders rely on.
use crate::lossy::{lemma_lossy_utf8_of_valid, lossy_utf8};
use crate::model::all_ascii;
use vstd::prelude::*;
use vstd::utf8::{
    decode_utf8, encode_utf8, length_of_first_scalar, pop_first_scalar, valid_first_scalar,
    valid_utf8,
};

verus! {

/// Bytes that `String::from_utf8` refused, with the length of their longest
/// valid UTF-8 prefix.
pub(crate) struct Utf8Rejection {
    pub bytes: Vec<u8>,
    pub valid_up_to: usize,
}

/// Calls `String::from_utf8`.
///
/// Claimed, as std documents it: the call succeeds exactly when `bytes` is
/// valid UTF-8, and the string then holds the characters the bytes encode.
/// On failure it hands the bytes back unchanged together with
/// `Utf8Error::valid_up_to`, which std documents as the largest index such
/// that the bytes before it are valid UTF-8.
#[verifier::external_body]
pub(crate) fn string_from_utf8(bytes: Vec<u8>) -> (r: Result<String, Utf8Rejection>)
    ensures
        r is Ok <==> valid_utf8(bytes@),
        r matches Ok(s) ==> s@ == decode_utf8(bytes@),
        r matches Err(e) ==> {
            &&& e.bytes@ == bytes@
            &&& e.valid_up_to <= bytes@.len()
            &&& valid_utf8(bytes@.take(e.valid_up_to as int))
            &&& forall|q: int|
                e.valid_up_to < q <= bytes@.len() ==> !valid_utf8(#[trigger] bytes@.take(q))
        },
{
    match String::from_utf8(bytes) {
        Ok(s) => Ok(s),
        Err(e) => {
            let valid_up_to = e.utf8_error().valid_up_to();
            Err(Utf8Rejection { bytes: e.into_bytes(), valid_up_to })
        },
    }
}

/// Calls `String::from_utf8_lossy` and takes the text as an owned `String`.
///
/// Claimed: the text is [`lossy_utf8`] of the bytes. std documents that
/// valid UTF-8 comes out as its own characters, and (`Utf8Error::error_len`,
/// `Utf8Chunk::invalid`) that each invalid sequence, at most three bytes
/// starting where the valid prefix ends and stopping before the first
/// unexpected byte, is replaced by one `U+FFFD`, decoding resuming after it:
/// the maximal-subpart rule that [`lossy_utf8`] states.
#[verifier::external_body]
pub(crate) fn string_from_utf8_lossy(bytes: &[u8]) -> (r: String)
    ensures
        r@ == lossy_utf8(bytes@),
{
    String::from_utf8_lossy(bytes).into_owned()
}

/// Turn bytes into text, replacing invalid UTF-8 as lossy decoding does.
pub(crate) fn bytes_to_text_lossy(bytes: Vec<u8>) -> (r: String)
    ensures
        r@ == lossy_utf8(bytes@),
{
    let ghost b = bytes@;
    match string_from_utf8(bytes) {
        Ok(s) => {
            proof {
                lemma_lossy_utf8_of_valid(b);
            }
            s
        },
        Err(e) => string_from_utf8_lossy(e.bytes.as_slice()),
    }
}

/// Turn bytes that are valid UTF-8 into the `String` they encode.
pub(crate) fn valid_bytes_to_string(bytes: Vec<u8>) -> (r: String)
    requires
        valid_utf8(bytes@),
    ensures
        encode_utf8(r@) == bytes@,
        r@ == decode_utf8(bytes@),
{
    let ghost b = bytes@;
    match string_from_utf8(bytes) {
        Ok(s) => {
            proof {
                vstd::utf8::decode_utf8_encode_utf8(b);
            }
            s
        },
        Err(_) => {
            proof {
                assert(false);
            }
            String::new()
        },
    }
}

/// ASCII bytes are valid UTF-8.
pub proof fn lemma_ascii_valid_utf8(s: Seq<u8>)
    requires
        all_ascii(s),
    ensures
        valid_utf8(s),
    decreases s.len(),
{
    if s.len() > 0 {
        let rest = pop_first_scalar(s);
        assert(rest =~= s.subrange(1, s.len() as int));
        assert(all_ascii(rest)) by {
            assert forall|k: int| 0 <= k < rest.len() implies #[trigger] rest[k] < 0x80 by {
                assert(rest[k] == s[k + 1]);
            }
        }
        lemma_ascii_valid_utf8(rest);
    }
}

/// The UTF-8 encoding of a text is valid UTF-8 and decodes back to the text.
pub proof fn lemma_text_bytes(t: Seq<char>)
    ensures
        valid_utf8(encode_utf8(t)),
        decode_utf8(encode_utf8(t)) == t,
{
    vstd::utf8::encode_utf8_valid_utf8(t);
    vstd::utf8::encode_utf8_decode_utf8(t);
}

/// Valid UTF-8 splits after its first scalar into two valid parts; the
/// scalar is one ASCII byte, or a non-ASCII byte followed by non-ASCII
/// continuation bytes.
pub proof fn lemma_first_scalar_parts(x: Seq<u8>)
    requires
        valid_utf8(x),
        x.len() > 0,
    ensures
        1 <= length_of_first_scalar(x) <= x.len(),
        valid_utf8(x.subrange(0, length_of_first_scalar(x))),
        valid_utf8(x.subrange(length_of_first_scalar(x), x.len() as int)),
        (x[0] < 0x80) <==> length_of_first_scalar(x) == 1,
        forall|k: int| 1 <= k < length_of_first_scalar(x) ==> #[trigger] x[k] >= 0x80,
        length_of_first_scalar(x) > 1 ==> x[0] >= 0x80,
{
    let w = length_of_first_scalar(x);
    let t = x.subrange(0, w);
    assert(valid_first_scalar(x));
    assert(pop_first_scalar(x) == x.subrange(w, x.len() as int));
    assert(t.len() == w);
    assert(forall|k: int| 0 <= k < w ==> #[trigger] t[k] == x[k]);
    assert(valid_first_scalar(t));
    assert(length_of_first_scalar(t) == w);
    assert(pop_first_scalar(t) =~= Seq::<u8>::empty());
    assert(valid_utf8(pop_first_scalar(t)));
}

/// Dropping `n` leading ASCII bytes from valid UTF-8 leaves valid UTF-8.
pub proof fn lemma_drop_ascii_prefix(x: Seq<u8>, n: int)
    requires
        valid_utf8(x),
        0 <= n <= x.len(),
        forall|k: int| 0 <= k < n ==> #[trigger] x[k] < 0x80,
    ensures
        valid_utf8(x.subrange(n, x.len() as int)),
    decreases n,
{
    if n == 0 {
        assert(x.subrange(0, x.len() as int) =~= x);
    } else {
        lemma_first_scalar_parts(x);
        let y = x.subrange(1, x.len() as int);
        assert forall|k: int| 0 <= k < n - 1 implies #[trigger] y[k] < 0x80 by {
            assert(y[k] == x[k + 1]);
        }
        lemma_drop_ascii_prefix(y, n - 1);
        assert(y.subrange(n - 1, y.len() as int) =~= x.subrange(n, x.len() as int));
    }
}

/// ASCII pieces joined with valid UTF-8 stay valid.
pub proof fn lemma_ascii_then_valid(a: Seq<u8>, b: Seq<u8>)
    requires
        all_ascii(a),
        valid_utf8(b),
    ensures
        valid_utf8(a + b),
{
    lemma_ascii_valid_utf8(a);
    vstd::utf8::valid_utf8_concat(a, b);
}

/// Length of a UTF-8 sequence as its leading byte announces it; `1` for a
/// byte that cannot lead one.
pub open spec fn spec_utf8_seq_len(b: u8) -> usize {
    if b <= 0x7f {
        1
    } else if 0xc0 <= b <= 0xdf {
        2
    } else if 0xe0 <= b <= 0xef {
        3
    } else if 0xf0 <= b <= 0xf7 {
        4
    } else {
        1
    }
}

/// Length of a UTF-8 sequence as its leading byte announces it; `1` for a
/// byte that cannot lead one.
pub fn utf8_seq_len(leading_byte: u8) -> (r: usize)
    ensures
        r == spec_utf8_seq_len(leading_byte),
        1 <= r <= 4,
{
    if leading_byte <= 0x7f {
        1
    } else if 0xc0 <= leading_byte && leading_byte <= 0xdf {
        2
    } else if 0xe0 <= leading_byte && leading_byte <= 0xef {
        3
    } else if 0xf0 <= leading_byte && leading_byte <= 0xf7 {
        4
    } else {
        1
    }
}

/// In valid UTF-8 the leading byte announces the length of the first scalar.
pub proof fn lemma_seq_len_of_valid(x: Seq<u8>)
    requires
        valid_utf8(x),
        x.len() > 0,
    ensures
        spec_utf8_seq_len(x[0]) as int == length_of_first_scalar(x),
{
    assert(valid_first_scalar(x));
}

/// Calls `core::str::from_utf8`.
///
/// Claimed, as std documents it: the call succeeds exactly when `bytes` is
/// valid UTF-8, and the string slice then holds the characters they encode.
#[verifier::external_body]
pub(crate) fn str_from_utf8(bytes: &[u8]) -> (r: Option<&str>)
    ensures
        r is Some <==> valid_utf8(bytes@),
        r matches Some(s) ==> s@ == decode_utf8(bytes@),
{
    core::str::from_utf8(bytes).ok()
}

} // verus!
