//! Allocation-free byte scanning for percent-encoding decisions.
use crate::hex::{is_hex, spec_is_ascii_lowercase};
use crate::model::{
    first_idem_from, first_invalid_from, first_raw_from, idem_encode, idem_from, is_pct_at,
    is_valid_pct, lemma_pct_triple, lemma_pct_triple_of_value, pct_triple, pct_value, raw_encode,
    raw_from,
};
use crate::set::EncodeSet;
use vstd::prelude::*;
use vstd::string::StringSliceAdditionalSpecFns;

verus! {

/// `r` is the index that `o` names, or both are absent.
pub open spec fn same_index(r: Option<usize>, o: Option<int>) -> bool {
    match r {
        Some(k) => o == Some(k as int),
        None => o is None,
    }
}

/// `r` is the index of the first occurrence of `byte` in `s`, if any.
pub open spec fn first_occurrence(s: Seq<u8>, byte: u8, r: Option<usize>) -> bool {
    match r {
        Some(k) => k < s.len() && s[k as int] == byte && forall|j: int|
            0 <= j < k ==> s[j] != byte,
        None => !s.contains(byte),
    }
}

/// Find the index of the first occurrence of `byte` in `input`, or `None`
/// if it does not occur.
pub fn find_first_byte(input: &[u8], byte: u8) -> (r: Option<usize>)
    ensures
        first_occurrence(input@, byte, r),
{
    find_first_byte_scalar(input, byte)
}

/// Byte-at-a-time search behind [`find_first_byte`].
pub(crate) fn find_first_byte_scalar(input: &[u8], byte: u8) -> (r: Option<usize>)
    ensures
        first_occurrence(input@, byte, r),
{
    let mut i: usize = 0;
    while i < input.len()
        invariant
            i <= input@.len(),
            forall|j: int| 0 <= j < i ==> input@[j] != byte,
        decreases input@.len() - i,
    {
        if input[i] == byte {
            return Some(i);
        }
        i = i + 1;
    }
    proof {
        assert forall|k: int| 0 <= k < input@.len() implies input@[k] != byte by {}
    }
    None
}

/// Index of the first byte that needs work in **idempotent** mode, or
/// `None` if the input is already canonical.
///
/// A `%XX` with uppercase digits is skipped whole; a `%XX` with a lowercase
/// digit, a `%` that starts no `%XX`, and any byte in `set` all need work.
pub fn find_first_byte_idempotent(input: &[u8], set: &EncodeSet) -> (r: Option<usize>)
    ensures
        same_index(r, first_idem_from(input@, set@, 0)),
{
    find_first_byte_idempotent_scalar(input, set)
}

/// Byte-at-a-time scan behind [`find_first_byte_idempotent`].
pub(crate) fn find_first_byte_idempotent_scalar(input: &[u8], set: &EncodeSet) -> (r: Option<
    usize,
>)
    ensures
        same_index(r, first_idem_from(input@, set@, 0)),
{
    find_first_byte_idempotent_from(input, set, 0)
}

/// The idempotent scan started at index `start`, which must be a token
/// boundary of the whole input.
pub(crate) fn find_first_byte_idempotent_from(input: &[u8], set: &EncodeSet, start: usize) -> (r:
    Option<usize>)
    requires
        start <= input@.len(),
    ensures
        same_index(r, first_idem_from(input@, set@, start as int)),
{
    let ghost s = input@;
    let mut i: usize = start;
    let len = input.len();
    while i < len
        invariant
            len == s.len(),
            s == input@,
            start <= i <= len,
            first_idem_from(s, set@, start as int) == first_idem_from(s, set@, i as int),
        decreases len - i,
    {
        let byte = input[i];
        if byte == 0x25 {
            if len - i > 2 && is_hex(input[i + 1]) && is_hex(input[i + 2]) {
                if is_ascii_lowercase(input[i + 1]) || is_ascii_lowercase(input[i + 2]) {
                    return Some(i);
                }
                i = i + 3;
                continue;
            }
            return Some(i);
        }
        if set.contains(byte) {
            return Some(i);
        }
        i = i + 1;
    }
    None
}

/// Returns `true` if `byte` is an ASCII lowercase letter.
pub(crate) fn is_ascii_lowercase(byte: u8) -> (r: bool)
    ensures
        r == spec_is_ascii_lowercase(byte),
{
    0x61 <= byte && byte <= 0x7a
}

/// Returns `true` if the input needs encoding in idempotent mode.
pub fn needs_encoding_idempotent(input: &[u8], set: &EncodeSet) -> (r: bool)
    ensures
        r == (first_idem_from(input@, set@, 0) is Some),
        r == (idem_encode(input@, set@) != input@),
{
    proof {
        lemma_first_idem_none_iff_unchanged(input@, set@, 0);
        assert(input@.subrange(0, input@.len() as int) =~= input@);
    }
    find_first_byte_idempotent(input, set).is_some()
}

/// Index of the first byte in `set`, or `None` if raw-mode encoding leaves
/// the input unchanged.
pub fn find_first_byte_raw(input: &[u8], set: &EncodeSet) -> (r: Option<usize>)
    ensures
        same_index(r, first_raw_from(input@, set@, 0)),
{
    find_first_byte_raw_scalar(input, set)
}

/// Byte-at-a-time scan behind [`find_first_byte_raw`].
pub(crate) fn find_first_byte_raw_scalar(input: &[u8], set: &EncodeSet) -> (r: Option<usize>)
    ensures
        same_index(r, first_raw_from(input@, set@, 0)),
{
    find_first_byte_raw_from(input, set, 0)
}

/// The raw-mode scan started at index `start`.
pub(crate) fn find_first_byte_raw_from(input: &[u8], set: &EncodeSet, start: usize) -> (r: Option<
    usize,
>)
    requires
        start <= input@.len(),
    ensures
        same_index(r, first_raw_from(input@, set@, start as int)),
{
    let mut i: usize = start;
    while i < input.len()
        invariant
            start <= i <= input@.len(),
            first_raw_from(input@, set@, start as int) == first_raw_from(input@, set@, i as int),
        decreases input@.len() - i,
    {
        if set.contains(input[i]) {
            return Some(i);
        }
        i = i + 1;
    }
    None
}

/// Returns `true` if any byte of the input is in `set` (raw mode).
pub fn needs_encoding_raw(input: &[u8], set: &EncodeSet) -> (r: bool)
    ensures
        r == (first_raw_from(input@, set@, 0) is Some),
        r == (raw_encode(input@, set@, false) != input@),
{
    proof {
        lemma_first_raw_none_iff_unchanged(input@, set@, 0);
        assert(input@.subrange(0, input@.len() as int) =~= input@);
    }
    find_first_byte_raw(input, set).is_some()
}

/// Length of the raw-mode encoding of `input`, computed without encoding.
///
/// With `force_high`, bytes `0x80–0xFF` count as `%XX` whatever the set.
pub fn encoded_len_raw(input: &[u8], set: &EncodeSet, force_high: bool) -> (r: usize)
    requires
        raw_encode(input@, set@, force_high).len() <= usize::MAX,
    ensures
        r == raw_encode(input@, set@, force_high).len(),
{
    let mut len: usize = 0;
    let mut i: usize = 0;
    while i < input.len()
        invariant
            i <= input@.len(),
            len + raw_from(input@, set@, force_high, i as int).len() == raw_encode(
                input@,
                set@,
                force_high,
            ).len(),
            raw_encode(input@, set@, force_high).len() <= usize::MAX,
        decreases input@.len() - i,
    {
        let b = input[i];
        proof {
            lemma_pct_triple(b);
        }
        if set.contains(b) || (force_high && b >= 0x80) {
            len = len + 3;
        } else {
            len = len + 1;
        }
        i = i + 1;
    }
    len
}

/// Length of the idempotent-mode encoding of `input`, computed without
/// encoding: a `%XX` counts 3, a stray `%` counts 3 (`%25`), a byte in `set`
/// counts 3, any other byte 1.
pub fn encoded_len_idempotent(input: &[u8], set: &EncodeSet) -> (r: usize)
    requires
        idem_encode(input@, set@).len() <= usize::MAX,
    ensures
        r == idem_encode(input@, set@).len(),
{
    let ghost s = input@;
    let mut len: usize = 0;
    let mut i: usize = 0;
    let n = input.len();
    while i < n
        invariant
            n == s.len(),
            s == input@,
            i <= n,
            len + idem_from(s, set@, i as int).len() == idem_encode(s, set@).len(),
            idem_encode(s, set@).len() <= usize::MAX,
        decreases n - i,
    {
        let byte = input[i];
        proof {
            lemma_pct_triple(byte);
            lemma_pct_triple(0x25);
            if is_pct_at(s, i as int) {
                lemma_pct_triple(pct_value(s, i as int));
            }
        }
        if byte == 0x25 {
            if n - i > 2 && is_hex(input[i + 1]) && is_hex(input[i + 2]) {
                len = len + 3;
                i = i + 3;
                continue;
            }
            len = len + 3;
            i = i + 1;
            continue;
        }
        if set.contains(byte) {
            len = len + 3;
        } else {
            len = len + 1;
        }
        i = i + 1;
    }
    len
}

/// Returns `true` if every `%` in `input` is followed by two hex digits.
pub fn is_valid(input: &str) -> (r: bool)
    ensures
        r == is_valid_pct(input.spec_bytes()),
{
    is_valid_bytes(input.as_bytes())
}

/// Same as [`is_valid`], on raw bytes.
pub fn is_valid_bytes(input: &[u8]) -> (r: bool)
    ensures
        r == is_valid_pct(input@),
{
    let ghost s = input@;
    let mut i: usize = 0;
    let len = input.len();
    while i < len
        invariant
            len == s.len(),
            s == input@,
            i <= len,
            first_invalid_from(s, 0) == first_invalid_from(s, i as int),
        decreases len - i,
    {
        if input[i] == 0x25 {
            if len - i <= 2 {
                return false;
            }
            if !is_hex(input[i + 1]) || !is_hex(input[i + 2]) {
                return false;
            }
            i = i + 3;
        } else {
            i = i + 1;
        }
    }
    true
}

// ── Lemmas relating the scans to the encoders ────────────────────────

/// Idempotent encoding never shortens the input.
pub proof fn lemma_idem_len_ge(s: Seq<u8>, set: Set<u8>, i: int)
    requires
        0 <= i <= s.len(),
    ensures
        idem_from(s, set, i).len() >= s.len() - i,
    decreases s.len() - i,
{
    if i < s.len() {
        if is_pct_at(s, i) {
            lemma_idem_len_ge(s, set, i + 3);
        } else {
            lemma_idem_len_ge(s, set, i + 1);
        }
    }
}

/// Raw encoding never shortens the input.
pub proof fn lemma_raw_len_ge(s: Seq<u8>, set: Set<u8>, force_high: bool, i: int)
    requires
        0 <= i <= s.len(),
    ensures
        raw_from(s, set, force_high, i).len() >= s.len() - i,
    decreases s.len() - i,
{
    if i < s.len() {
        lemma_raw_len_ge(s, set, force_high, i + 1);
    }
}

/// The idempotent scan finds nothing from `i` on exactly when idempotent
/// encoding leaves that part of the input unchanged.
pub proof fn lemma_first_idem_none_iff_unchanged(s: Seq<u8>, set: Set<u8>, i: int)
    requires
        0 <= i <= s.len(),
    ensures
        (first_idem_from(s, set, i) is None) <==> idem_from(s, set, i) == s.subrange(
            i,
            s.len() as int,
        ),
    decreases s.len() - i,
{
    let tail = s.subrange(i, s.len() as int);
    if i < s.len() {
        let out = idem_from(s, set, i);
        if is_pct_at(s, i) {
            lemma_first_idem_none_iff_unchanged(s, set, i + 3);
            let rest = idem_from(s, set, i + 3);
            let t = pct_triple(pct_value(s, i));
            lemma_pct_triple(pct_value(s, i));
            assert(tail =~= s.subrange(i, i + 3) + s.subrange(i + 3, s.len() as int));
            if !spec_is_ascii_lowercase(s[i + 1]) && !spec_is_ascii_lowercase(s[i + 2]) {
                lemma_pct_triple_of_value(s, i);
                assert(tail.subrange(3, tail.len() as int) =~= s.subrange(i + 3, s.len() as int));
                if out == tail {
                    assert(rest =~= out.subrange(3, out.len() as int));
                }
                if rest == s.subrange(i + 3, s.len() as int) {
                    assert(out =~= tail);
                }
            } else {
                if out == tail {
                    assert(out[1] == t[1]);
                    assert(out[2] == t[2]);
                    assert(tail[1] == s[i + 1]);
                    assert(tail[2] == s[i + 2]);
                }
            }
        } else {
            lemma_first_idem_none_iff_unchanged(s, set, i + 1);
            lemma_idem_len_ge(s, set, i + 1);
            let rest = idem_from(s, set, i + 1);
            assert(tail =~= seq![s[i]] + s.subrange(i + 1, s.len() as int));
            if s[i] == 0x25 || set.contains(s[i]) {
                assert(out.len() > tail.len());
            } else {
                assert(tail.subrange(1, tail.len() as int) =~= s.subrange(i + 1, s.len() as int));
                if out == tail {
                    assert(rest =~= out.subrange(1, out.len() as int));
                }
                if rest == s.subrange(i + 1, s.len() as int) {
                    assert(out =~= tail);
                }
            }
        }
    } else {
        assert(tail =~= Seq::<u8>::empty());
    }
}

/// The raw scan finds nothing from `i` on exactly when raw encoding leaves
/// that part of the input unchanged.
pub proof fn lemma_first_raw_none_iff_unchanged(s: Seq<u8>, set: Set<u8>, i: int)
    requires
        0 <= i <= s.len(),
    ensures
        (first_raw_from(s, set, i) is None) <==> raw_from(s, set, false, i) == s.subrange(
            i,
            s.len() as int,
        ),
    decreases s.len() - i,
{
    let tail = s.subrange(i, s.len() as int);
    if i < s.len() {
        lemma_first_raw_none_iff_unchanged(s, set, i + 1);
        lemma_raw_len_ge(s, set, false, i + 1);
        let out = raw_from(s, set, false, i);
        let rest = raw_from(s, set, false, i + 1);
        assert(tail =~= seq![s[i]] + s.subrange(i + 1, s.len() as int));
        if set.contains(s[i]) {
            assert(out.len() > tail.len());
        } else {
            assert(tail.subrange(1, tail.len() as int) =~= s.subrange(i + 1, s.len() as int));
            if out == tail {
                assert(rest =~= out.subrange(1, out.len() as int));
            }
            if rest == s.subrange(i + 1, s.len() as int) {
                assert(out =~= tail);
            }
        }
    } else {
        assert(tail =~= Seq::<u8>::empty());
    }
}

} // verus!
