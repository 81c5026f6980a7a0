//! Encoding into a caller-supplied fixed-size buffer, without allocation.
use crate::hex::{lemma_hex_tables, HEX_UPPER};
use crate::model::{lemma_pct_triple, pct_triple, raw_byte, raw_encode, raw_from};
use crate::scan::encoded_len_raw;
use crate::set::EncodeSet;
use vstd::prelude::*;

verus! {

/// Largest input, in bytes, meant to be encoded into a buffer of
/// [`CONST_ENCODE_BUF_SIZE`] bytes.
pub const MAX_CONST_INPUT_LEN: usize = 1024;

/// A buffer size that holds the encoding of any input of at most
/// [`MAX_CONST_INPUT_LEN`] bytes: three bytes per input byte.
pub const CONST_ENCODE_BUF_SIZE: usize = 3072;

/// Percent-encode `input` with `set` (raw mode) into the front of `buf`,
/// returning the number of bytes written. The rest of `buf` is untouched.
///
/// `buf` must hold at least [`const_encoded_len`] bytes.
pub fn const_encode_to_buf(input: &[u8], set: &EncodeSet, buf: &mut [u8]) -> (r: usize)
    requires
        raw_encode(input@, set@, false).len() <= old(buf)@.len(),
    ensures
        r == raw_encode(input@, set@, false).len(),
        final(buf)@.len() == old(buf)@.len(),
        final(buf)@.subrange(0, r as int) == raw_encode(input@, set@, false),
        final(buf)@.subrange(r as int, final(buf)@.len() as int) == old(buf)@.subrange(
            r as int,
            old(buf)@.len() as int,
        ),
{
    let ghost s = input@;
    let ghost total = raw_encode(s, set@, false);
    let mut i: usize = 0;
    let mut o: usize = 0;
    let blen = buf.len();
    while i < input.len()
        invariant
            blen == buf@.len(),
            s == input@,
            total == raw_encode(s, set@, false),
            i <= s.len(),
            buf@.len() == old(buf)@.len(),
            total.len() <= buf@.len(),
            o <= total.len(),
            total.subrange(o as int, total.len() as int) == raw_from(s, set@, false, i as int),
            forall|k: int| 0 <= k < o ==> #[trigger] buf@[k] == total[k],
            forall|k: int| o <= k < buf@.len() ==> #[trigger] buf@[k] == old(buf)@[k],
        decreases s.len() - i,
    {
        let b = input[i];
        let ghost rest = raw_from(s, set@, false, i as int);
        proof {
            lemma_pct_triple(b);
            assert(rest == raw_byte(b, set@, false) + raw_from(s, set@, false, i + 1));
        }
        if set.contains(b) {
            proof {
                assert(rest.len() >= 3);
                assert forall|k: int| o <= k < o + 3 implies #[trigger] total[k] == pct_triple(b)[k
                    - o] by {
                    assert(total[k] == total.subrange(o as int, total.len() as int)[k - o]);
                }
            }
            write_pct_triple(buf, o, b);
            o = o + 3;
        } else {
            proof {
                assert(total[o as int] == total.subrange(o as int, total.len() as int)[0]);
            }
            buf[o] = b;
            o = o + 1;
        }
        proof {
            assert(total.subrange(o as int, total.len() as int) =~= rest.subrange(
                raw_byte(b, set@, false).len() as int,
                rest.len() as int,
            ));
        }
        i = i + 1;
    }
    proof {
        assert(buf@.subrange(0, o as int) =~= total);
        assert(buf@.subrange(o as int, buf@.len() as int) =~= old(buf)@.subrange(
            o as int,
            old(buf)@.len() as int,
        ));
    }
    o
}

/// Write `%XY` for `b` at `buf[o..o + 3]`.
fn write_pct_triple(buf: &mut [u8], o: usize, b: u8)
    requires
        o + 3 <= old(buf)@.len(),
    ensures
        final(buf)@.len() == old(buf)@.len(),
        forall|k: int| o <= k < o + 3 ==> #[trigger] final(buf)@[k] == pct_triple(b)[k - o],
        forall|k: int|
            0 <= k < final(buf)@.len() && !(o <= k < o + 3) ==> #[trigger] final(buf)@[k]
                == old(buf)@[k],
{
    proof {
        lemma_hex_tables();
    }
    buf[o] = 0x25;
    buf[o + 1] = HEX_UPPER[(b / 16) as usize];
    buf[o + 2] = HEX_UPPER[(b % 16) as usize];
}

/// Length of the raw-mode encoding of `input` with `set`, computed without
/// encoding; the buffer size [`const_encode_to_buf`] needs.
pub fn const_encoded_len(input: &[u8], set: &EncodeSet) -> (r: usize)
    requires
        raw_encode(input@, set@, false).len() <= usize::MAX,
    ensures
        r == raw_encode(input@, set@, false).len(),
{
    encoded_len_raw(input, set, false)
}

} // verus!
