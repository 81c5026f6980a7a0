//! The set of bytes that an encoder percent-encodes.
use vstd::prelude::*;

verus! {

/// A set of bytes that should be percent-encoded.
///
/// A 256-bit bitmask, one bit per byte value: word `b / 64`, bit `b % 64`.
#[derive(Clone, Copy, PartialEq, Eq, Debug)]
pub struct EncodeSet {
    bits: [u64; 4],
}

/// Bit `j` of the word `w`.
pub open spec fn word_bit(w: u64, j: u64) -> bool {
    (w >> j) & 1u64 == 1u64
}

impl EncodeSet {
    /// Membership as the bitmask records it.
    pub closed spec fn has(self, b: u8) -> bool {
        word_bit(self.bits@[b as int / 64], (b % 64) as u64)
    }

    /// The four words of the bitmask.
    pub closed spec fn words(self) -> Seq<u64> {
        self.bits@
    }
}

impl View for EncodeSet {
    type V = Set<u8>;

    open spec fn view(&self) -> Set<u8> {
        Set::new(|b: u8| self.has(b))
    }
}

/// RFC 3986 unreserved characters: `A-Z a-z 0-9 - . _ ~`.
pub open spec fn spec_is_unreserved(b: u8) -> bool {
    ||| (0x41 <= b <= 0x5a)
    ||| (0x61 <= b <= 0x7a)
    ||| (0x30 <= b <= 0x39)
    ||| b == 0x2d
    ||| b == 0x2e
    ||| b == 0x5f
    ||| b == 0x7e
}

/// ASCII letters and digits.
pub open spec fn spec_is_alphanumeric(b: u8) -> bool {
    (0x41 <= b <= 0x5a) || (0x61 <= b <= 0x7a) || (0x30 <= b <= 0x39)
}

/// Members of [`EncodeSet::controls`]: C0 controls and DEL.
pub open spec fn in_controls(b: u8) -> bool {
    b <= 0x1f || b == 0x7f
}

/// The members of [`EncodeSet::controls`] as a set.
pub open spec fn controls_bytes() -> Set<u8> {
    Set::new(|b: u8| in_controls(b))
}

/// Members of [`EncodeSet::non_alphanumeric`].
pub open spec fn in_non_alphanumeric(b: u8) -> bool {
    !spec_is_alphanumeric(b)
}

/// The members of [`EncodeSet::non_alphanumeric`] as a set.
pub open spec fn non_alphanumeric_bytes() -> Set<u8> {
    Set::new(|b: u8| in_non_alphanumeric(b))
}

/// Members of [`EncodeSet::component`]: everything but unreserved characters.
pub open spec fn in_component(b: u8) -> bool {
    !spec_is_unreserved(b)
}

/// The members of [`EncodeSet::component`] as a set.
pub open spec fn component_bytes() -> Set<u8> {
    Set::new(|b: u8| in_component(b))
}

/// Members of [`EncodeSet::path`]: the component set without `/`.
pub open spec fn in_path(b: u8) -> bool {
    in_component(b) && b != 0x2f
}

/// The members of [`EncodeSet::path`] as a set.
pub open spec fn path_bytes() -> Set<u8> {
    Set::new(|b: u8| in_path(b))
}

/// Members of [`EncodeSet::query`]: the component set without `?`, `=`, `&`.
pub open spec fn in_query(b: u8) -> bool {
    in_component(b) && b != 0x3f && b != 0x3d && b != 0x26
}

/// The members of [`EncodeSet::query`] as a set.
pub open spec fn query_bytes() -> Set<u8> {
    Set::new(|b: u8| in_query(b))
}

/// Members of [`EncodeSet::fragment`]: the component set without `#`.
pub open spec fn in_fragment(b: u8) -> bool {
    in_component(b) && b != 0x23
}

/// The members of [`EncodeSet::fragment`] as a set.
pub open spec fn fragment_bytes() -> Set<u8> {
    Set::new(|b: u8| in_fragment(b))
}

/// Members of [`EncodeSet::whatwg`]: everything that is not a URL code point.
pub open spec fn in_whatwg(b: u8) -> bool {
    ||| b <= 0x20
    ||| b == 0x22
    ||| b == 0x23
    ||| b == 0x3c
    ||| b == 0x3e
    ||| b == 0x5c
    ||| b == 0x5e
    ||| b == 0x60
    ||| (0x7b <= b <= 0x7d)
    ||| b >= 0x7f
}

/// The members of [`EncodeSet::whatwg`] as a set.
pub open spec fn whatwg_bytes() -> Set<u8> {
    Set::new(|b: u8| in_whatwg(b))
}

proof fn lemma_bit_update(w: u64, j: u64, k: u64)
    by (bit_vector)
    requires
        j < 64,
        k < 64,
    ensures
        word_bit(w | (1u64 << k), j) <==> (word_bit(w, j) || j == k),
        word_bit(w & !(1u64 << k), j) <==> (word_bit(w, j) && j != k),
{
}

proof fn lemma_full_and_empty_words(j: u64)
    by (bit_vector)
    requires
        j < 64,
    ensures
        word_bit(0xffff_ffff_ffff_ffffu64, j),
        !word_bit(0u64, j),
{
}

proof fn lemma_controls_words(j: u64)
    by (bit_vector)
    requires
        j < 64,
    ensures
        word_bit(0xffff_ffffu64, j) <==> j <= 0x1f,
        word_bit(0x8000_0000_0000_0000u64, j) <==> j == 63,
{
}

proof fn lemma_non_alphanumeric_words(j: u64)
    by (bit_vector)
    requires
        j < 64,
    ensures
        word_bit(0xfc00_ffff_ffff_ffffu64, j) <==> (j <= 0x2f || j >= 0x3a),
        word_bit(0xf800_0001_f800_0001u64, j) <==> (j == 0 || (27 <= j <= 32) || j >= 59),
{
}

proof fn lemma_component_words(j: u64)
    by (bit_vector)
    requires
        j < 64,
    ensures
        word_bit(0xfc00_9fff_ffff_ffffu64, j) <==> (j <= 0x2c || j == 0x2f || j >= 0x3a),
        word_bit(0xfc00_1fff_ffff_ffffu64, j) <==> (j <= 0x2c || j >= 0x3a),
        word_bit(0x5c00_9fbf_ffff_ffffu64, j) <==> (j <= 0x2c && j != 0x26 || j == 0x2f || j
            >= 0x3a && j != 0x3d && j != 0x3f),
        word_bit(0xfc00_9ff7_ffff_ffffu64, j) <==> (j <= 0x2c && j != 0x23 || j == 0x2f || j
            >= 0x3a),
        word_bit(0xb800_0001_7800_0001u64, j) <==> (j == 0 || (27 <= j <= 30) || j == 32 || (59
            <= j <= 61) || j == 63),
{
}

proof fn lemma_whatwg_words(j: u64)
    by (bit_vector)
    requires
        j < 64,
    ensures
        word_bit(0x5000_000d_ffff_ffffu64, j) <==> (j <= 0x20 || j == 0x22 || j == 0x23 || j
            == 0x3c || j == 0x3e),
        word_bit(0xb800_0001_5000_0000u64, j) <==> (j == 28 || j == 30 || j == 32 || (59 <= j
            <= 61) || j == 63),
{
}

const CONTROLS_WORDS: [u64; 4] = [0xffff_ffff, 0x8000_0000_0000_0000, 0, 0];

const NON_ALPHANUMERIC_WORDS: [u64; 4] = [0xfc00_ffff_ffff_ffff, 0xf800_0001_f800_0001, 0xffff_ffff_ffff_ffff, 0xffff_ffff_ffff_ffff];

const COMPONENT_WORDS: [u64; 4] = [0xfc00_9fff_ffff_ffff, 0xb800_0001_7800_0001, 0xffff_ffff_ffff_ffff, 0xffff_ffff_ffff_ffff];

const PATH_WORDS: [u64; 4] = [0xfc00_1fff_ffff_ffff, 0xb800_0001_7800_0001, 0xffff_ffff_ffff_ffff, 0xffff_ffff_ffff_ffff];

const QUERY_WORDS: [u64; 4] = [0x5c00_9fbf_ffff_ffff, 0xb800_0001_7800_0001, 0xffff_ffff_ffff_ffff, 0xffff_ffff_ffff_ffff];

const FRAGMENT_WORDS: [u64; 4] = [0xfc00_9ff7_ffff_ffff, 0xb800_0001_7800_0001, 0xffff_ffff_ffff_ffff, 0xffff_ffff_ffff_ffff];

const WHATWG_WORDS: [u64; 4] = [0x5000_000d_ffff_ffff, 0xb800_0001_5000_0000, 0xffff_ffff_ffff_ffff, 0xffff_ffff_ffff_ffff];

impl EncodeSet {
    /// C0 controls (0x00–0x1F) and DEL (0x7F).
    pub fn controls() -> (r: EncodeSet)
        ensures
            r@ == controls_bytes(),
    {
        let r = EncodeSet { bits: CONTROLS_WORDS };
        proof {
            assert forall|b: u8| r.has(b) <==> in_controls(b) by {
                lemma_full_and_empty_words((b % 64) as u64);
                lemma_controls_words((b % 64) as u64);
            }
            assert(r@ =~= controls_bytes());
        }
        r
    }

    /// Everything that is not an ASCII letter or digit.
    pub fn non_alphanumeric() -> (r: EncodeSet)
        ensures
            r@ == non_alphanumeric_bytes(),
    {
        let r = EncodeSet { bits: NON_ALPHANUMERIC_WORDS };
        proof {
            assert forall|b: u8| r.has(b) <==> in_non_alphanumeric(b) by {
                lemma_full_and_empty_words((b % 64) as u64);
                lemma_non_alphanumeric_words((b % 64) as u64);
            }
            assert(r@ =~= non_alphanumeric_bytes());
        }
        r
    }

    /// Everything that is not an RFC 3986 unreserved character
    /// (`A-Z a-z 0-9 - . _ ~`); the default for an isolated URL component.
    pub fn component() -> (r: EncodeSet)
        ensures
            r@ == component_bytes(),
    {
        let r = EncodeSet { bits: COMPONENT_WORDS };
        proof {
            assert forall|b: u8| r.has(b) <==> in_component(b) by {
                lemma_full_and_empty_words((b % 64) as u64);
                lemma_component_words((b % 64) as u64);
            }
            assert(r@ =~= component_bytes());
        }
        r
    }

    /// Like [`component`](Self::component), but keeps `/` unencoded.
    pub fn path() -> (r: EncodeSet)
        ensures
            r@ == path_bytes(),
    {
        let r = EncodeSet { bits: PATH_WORDS };
        proof {
            assert forall|b: u8| r.has(b) <==> in_path(b) by {
                lemma_full_and_empty_words((b % 64) as u64);
                lemma_component_words((b % 64) as u64);
            }
            assert(r@ =~= path_bytes());
        }
        r
    }

    /// Like [`component`](Self::component), but keeps `?`, `=`, `&` unencoded.
    pub fn query() -> (r: EncodeSet)
        ensures
            r@ == query_bytes(),
    {
        let r = EncodeSet { bits: QUERY_WORDS };
        proof {
            assert forall|b: u8| r.has(b) <==> in_query(b) by {
                lemma_full_and_empty_words((b % 64) as u64);
                lemma_component_words((b % 64) as u64);
            }
            assert(r@ =~= query_bytes());
        }
        r
    }

    /// Like [`component`](Self::component), but keeps `#` unencoded.
    pub fn fragment() -> (r: EncodeSet)
        ensures
            r@ == fragment_bytes(),
    {
        let r = EncodeSet { bits: FRAGMENT_WORDS };
        proof {
            assert forall|b: u8| r.has(b) <==> in_fragment(b) by {
                lemma_full_and_empty_words((b % 64) as u64);
                lemma_component_words((b % 64) as u64);
            }
            assert(r@ =~= fragment_bytes());
        }
        r
    }

    /// Everything that is not a WHATWG URL code point: C0 controls, space,
    /// `"`, `#`, `<`, `>`, `\`, `^`, `` ` ``, `{`, `|`, `}`, DEL and non-ASCII bytes.
    pub fn whatwg() -> (r: EncodeSet)
        ensures
            r@ == whatwg_bytes(),
    {
        let r = EncodeSet { bits: WHATWG_WORDS };
        proof {
            assert forall|b: u8| r.has(b) <==> in_whatwg(b) by {
                lemma_full_and_empty_words((b % 64) as u64);
                lemma_whatwg_words((b % 64) as u64);
            }
            assert(r@ =~= whatwg_bytes());
        }
        r
    }

    /// Create an empty set: no byte is encoded.
    pub fn new() -> (r: EncodeSet)
        ensures
            r@ == Set::<u8>::empty(),
    {
        let r = EncodeSet { bits: [0, 0, 0, 0] };
        proof {
            assert forall|b: u8| !r.has(b) by {
                lemma_full_and_empty_words((b % 64) as u64);
            }
            assert(r@ =~= Set::<u8>::empty());
        }
        r
    }

    /// Add a byte to the set.
    pub fn add(self, byte: u8) -> (r: EncodeSet)
        ensures
            r@ == self@.insert(byte),
    {
        let idx: usize = (byte / 64) as usize;
        let bit: u64 = (byte % 64) as u64;
        let mut bits = self.bits;
        bits[idx] = bits[idx] | (1u64 << bit);
        let r = EncodeSet { bits };
        proof {
            assert forall|b: u8| r.has(b) <==> (self.has(b) || b == byte) by {
                lemma_bit_update(self.bits@[b as int / 64], (b % 64) as u64, bit);
            }
            assert(r@ =~= self@.insert(byte));
        }
        r
    }

    /// Remove a byte from the set.
    pub fn remove(self, byte: u8) -> (r: EncodeSet)
        ensures
            r@ == self@.remove(byte),
    {
        let idx: usize = (byte / 64) as usize;
        let bit: u64 = (byte % 64) as u64;
        let mut bits = self.bits;
        bits[idx] = bits[idx] & !(1u64 << bit);
        let r = EncodeSet { bits };
        proof {
            assert forall|b: u8| r.has(b) <==> (self.has(b) && b != byte) by {
                lemma_bit_update(self.bits@[b as int / 64], (b % 64) as u64, bit);
            }
            assert(r@ =~= self@.remove(byte));
        }
        r
    }

    /// Add the inclusive range `start..=end` of bytes to the set.
    pub fn add_range(self, start: u8, end: u8) -> (r: EncodeSet)
        ensures
            r@ == self@.union(Set::new(|b: u8| start <= b <= end)),
    {
        let mut set = self;
        let mut i: u32 = start as u32;
        while i <= end as u32
            invariant
                start <= i,
                i <= end as u32 + 1 || i == start,
                set@ == self@.union(Set::new(|b: u8| start <= b < i)),
            decreases end as u32 + 1 - i,
        {
            set = set.add(i as u8);
            proof {
                assert(set@ =~= self@.union(Set::new(|b: u8| start <= b < i + 1)));
            }
            i = i + 1;
        }
        proof {
            assert(set@ =~= self@.union(Set::new(|b: u8| start <= b <= end)));
        }
        set
    }

    /// Remove the inclusive range `start..=end` of bytes from the set.
    pub fn remove_range(self, start: u8, end: u8) -> (r: EncodeSet)
        ensures
            r@ == self@.difference(Set::new(|b: u8| start <= b <= end)),
    {
        let mut set = self;
        let mut i: u32 = start as u32;
        while i <= end as u32
            invariant
                start <= i,
                i <= end as u32 + 1 || i == start,
                set@ == self@.difference(Set::new(|b: u8| start <= b < i)),
            decreases end as u32 + 1 - i,
        {
            set = set.remove(i as u8);
            proof {
                assert(set@ =~= self@.difference(Set::new(|b: u8| start <= b < i + 1)));
            }
            i = i + 1;
        }
        proof {
            assert(set@ =~= self@.difference(Set::new(|b: u8| start <= b <= end)));
        }
        set
    }

    /// Returns `true` if the byte is in the set (should be encoded).
    pub fn contains(&self, byte: u8) -> (r: bool)
        ensures
            r == self@.contains(byte),
    {
        let idx: usize = (byte / 64) as usize;
        let bit: u64 = (byte % 64) as u64;
        (self.bits[idx] >> bit) & 1 == 1
    }

    /// The raw 256-bit bitmask as four `u64` words: word `i` covers bytes
    /// `64 * i ..= 64 * i + 63`, one bit per byte in increasing order.
    pub fn bits(&self) -> (r: &[u64; 4])
        ensures
            r@ == self.words(),
            forall|b: u8| #[trigger]
                self@.contains(b) <==> word_bit(r@[b as int / 64], (b % 64) as u64),
    {
        &self.bits
    }

    /// The members of the set in increasing order.
    pub fn members(&self) -> (r: Vec<u8>)
        ensures
            forall|b: u8| self@.contains(b) <==> r@.contains(b),
            forall|i: int, j: int| 0 <= i < j < r@.len() ==> r@[i] < r@[j],
    {
        let mut out: Vec<u8> = Vec::new();
        let mut b: u32 = 0;
        while b < 256
            invariant
                b <= 256,
                forall|c: u8| (c < b && self@.contains(c)) <==> out@.contains(c),
                forall|i: int| 0 <= i < out@.len() ==> out@[i] < b,
                forall|i: int, j: int| 0 <= i < j < out@.len() ==> out@[i] < out@[j],
            decreases 256 - b,
        {
            if self.contains(b as u8) {
                let ghost before = out@;
                out.push(b as u8);
                proof {
                    assert(out@ == before.push(b as u8));
                    assert forall|c: u8| (c < b + 1 && self@.contains(c)) <==> out@.contains(c) by {
                        if c == b {
                            assert(out@[out@.len() - 1] == c);
                        }
                        if out@.contains(c) && c != b {
                            let k = choose|k: int| 0 <= k < out@.len() && out@[k] == c;
                            assert(before[k] == c);
                        }
                        if before.contains(c) {
                            let k = choose|k: int| 0 <= k < before.len() && before[k] == c;
                            assert(out@[k] == c);
                        }
                    }
                }
            }
            b = b + 1;
        }
        out
    }
}

impl Default for EncodeSet {
    fn default() -> (r: EncodeSet)
        ensures
            r@ == Set::<u8>::empty(),
    {
        EncodeSet::new()
    }
}

} // verus!
