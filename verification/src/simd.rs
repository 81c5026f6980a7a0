//! Block-wise scanning: the no-op fast path looks at the input 32 bytes at a
//! time and skips whole blocks that cannot need work, falling back to the
//! byte-at-a-time scan where a block might.
use crate::model::{first_idem_from, first_raw_from, is_pct_at};
use crate::normalize::is_unreserved;
use crate::scan::{
    find_first_byte_idempotent_from, find_first_byte_raw_from, first_occurrence, same_index,
};
use crate::set::{spec_is_unreserved, EncodeSet};
use vstd::prelude::*;

verus! {

/// Width of a block.
const LANES: usize = 32;

/// Width of the half block used on the tail.
const HALF_LANES: usize = 16;

/// Every byte of `input[start..start + n]` is unreserved and outside `set`.
pub open spec fn block_is_clean(s: Seq<u8>, set: Set<u8>, start: int, n: int) -> bool {
    forall|k: int| start <= k < start + n ==> spec_is_unreserved(#[trigger] s[k]) && !set.contains(
        s[k],
    )
}

/// Returns `true` if every byte of `chunk` is an RFC 3986 unreserved
/// character.
fn all_unreserved(chunk: &[u8]) -> (r: bool)
    ensures
        r == forall|k: int| 0 <= k < chunk@.len() ==> spec_is_unreserved(#[trigger] chunk@[k]),
{
    let mut i: usize = 0;
    while i < chunk.len()
        invariant
            i <= chunk@.len(),
            forall|k: int| 0 <= k < i ==> spec_is_unreserved(#[trigger] chunk@[k]),
        decreases chunk@.len() - i,
    {
        if !is_unreserved(chunk[i]) {
            return false;
        }
        i = i + 1;
    }
    true
}

/// The block `input[start..start + LANES]` can be skipped: all its bytes are
/// unreserved and outside `set`.
fn block_clean(input: &[u8], start: usize, set: &EncodeSet) -> (r: bool)
    requires
        start + LANES <= input@.len(),
    ensures
        r == block_is_clean(input@, set@, start as int, LANES as int),
{
    let n = input.len();
    let end: usize = start + LANES;
    let chunk = vstd::slice::slice_subrange(input, start, end);
    if !all_unreserved(chunk) {
        proof {
            let k = choose|k: int| 0 <= k < chunk@.len() && !spec_is_unreserved(#[trigger] chunk@[k]);
            assert(input@[start + k] == chunk@[k]);
        }
        return false;
    }
    let mut i: usize = start;
    while i < end
        invariant
            end == start + LANES,
            start <= i <= start + LANES,
            start + LANES <= input@.len(),
            chunk@ == input@.subrange(start as int, start + LANES),
            forall|k: int| 0 <= k < chunk@.len() ==> spec_is_unreserved(#[trigger] chunk@[k]),
            forall|k: int| start <= k < i ==> !set@.contains(#[trigger] input@[k]),
        decreases start + LANES - i,
    {
        if set.contains(input[i]) {
            return false;
        }
        i = i + 1;
    }
    proof {
        assert forall|k: int| start <= k < start + LANES implies spec_is_unreserved(
            #[trigger] input@[k],
        ) && !set@.contains(input@[k]) by {
            assert(input@[k] == chunk@[k - start]);
        }
    }
    true
}

/// First index in `input[from..to]` that holds `byte`.
fn first_in_range(input: &[u8], byte: u8, from: usize, to: usize) -> (r: Option<usize>)
    requires
        from <= to <= input@.len(),
    ensures
        match r {
            Some(k) => from <= k < to && input@[k as int] == byte && forall|j: int|
                from <= j < k ==> input@[j] != byte,
            None => forall|j: int| from <= j < to ==> input@[j] != byte,
        },
{
    let mut i: usize = from;
    while i < to
        invariant
            from <= i <= to <= input@.len(),
            forall|j: int| from <= j < i ==> input@[j] != byte,
        decreases to - i,
    {
        if input[i] == byte {
            return Some(i);
        }
        i = i + 1;
    }
    None
}

/// Find the first occurrence of `byte` in `input`, looking at 32-byte
/// blocks, then a 16-byte block, then single bytes.
pub fn find_first_byte_simd(input: &[u8], byte: u8) -> (r: Option<usize>)
    ensures
        first_occurrence(input@, byte, r),
{
    let len = input.len();
    let mut i: usize = 0;
    while len - i >= LANES
        invariant
            len == input@.len(),
            i <= len,
            forall|j: int| 0 <= j < i ==> input@[j] != byte,
        decreases len - i,
    {
        match first_in_range(input, byte, i, i + LANES) {
            Some(k) => {
                return Some(k);
            },
            None => {},
        }
        i = i + LANES;
    }
    if len - i >= HALF_LANES {
        match first_in_range(input, byte, i, i + HALF_LANES) {
            Some(k) => {
                return Some(k);
            },
            None => {},
        }
        i = i + HALF_LANES;
    }
    let r = first_in_range(input, byte, i, len);
    proof {
        if r is None {
            assert forall|k: int| 0 <= k < input@.len() implies input@[k] != byte by {}
        }
    }
    r
}

/// Skipping a clean block does not change the idempotent scan.
proof fn lemma_idem_skip_clean(s: Seq<u8>, set: Set<u8>, i: int, j: int)
    requires
        0 <= i <= j <= s.len(),
        block_is_clean(s, set, i, j - i),
    ensures
        first_idem_from(s, set, i) == first_idem_from(s, set, j),
        first_raw_from(s, set, i) == first_raw_from(s, set, j),
    decreases j - i,
{
    if i < j {
        assert(spec_is_unreserved(s[i]) && !set.contains(s[i]));
        assert(!is_pct_at(s, i));
        lemma_idem_skip_clean(s, set, i + 1, j);
    }
}

/// Index of the first byte that needs work in idempotent mode; clean 32-byte
/// blocks at the front are skipped whole, the rest is scanned byte by byte.
pub fn find_first_byte_idempotent_simd(input: &[u8], set: &EncodeSet) -> (r: Option<usize>)
    ensures
        same_index(r, first_idem_from(input@, set@, 0)),
{
    let len = input.len();
    let mut i: usize = 0;
    while len - i >= LANES && block_clean(input, i, set)
        invariant
            len == input@.len(),
            i <= len,
            first_idem_from(input@, set@, 0) == first_idem_from(input@, set@, i as int),
        decreases len - i,
    {
        proof {
            lemma_idem_skip_clean(input@, set@, i as int, i + LANES);
        }
        i = i + LANES;
    }
    find_first_byte_idempotent_from(input, set, i)
}

/// Index of the first byte in `set`; clean 32-byte blocks at the front are
/// skipped whole, the rest is scanned byte by byte.
pub fn find_first_byte_raw_simd(input: &[u8], set: &EncodeSet) -> (r: Option<usize>)
    ensures
        same_index(r, first_raw_from(input@, set@, 0)),
{
    let len = input.len();
    let mut i: usize = 0;
    while len - i >= LANES && block_clean(input, i, set)
        invariant
            len == input@.len(),
            i <= len,
            first_raw_from(input@, set@, 0) == first_raw_from(input@, set@, i as int),
        decreases len - i,
    {
        proof {
            lemma_idem_skip_clean(input@, set@, i as int, i + LANES);
        }
        i = i + LANES;
    }
    find_first_byte_raw_from(input, set, i)
}

} // verus!
