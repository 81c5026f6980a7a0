//! Streaming, allocation-free encoding and decoding: one output byte or
//! character per call.
use crate::hex::{decode_hex_pair, is_hex, lemma_hex_tables, upper_digit, HEX_UPPER};
use crate::lossy::{
    is_utf8_partial, is_utf8_prefix, lemma_valid_first_scalar_width, lossy_utf8,
    maximal_subpart_len, replacement_char, utf8_width,
};
use crate::model::{
    decode_replacing, decode_replacing_from, is_pct_at, lemma_pct_triple, pct_value, raw_byte,
    raw_from, replacement_bytes,
};
use crate::set::EncodeSet;
use crate::text::str_from_utf8;
use vstd::prelude::*;
use vstd::string::{StrSliceExecFns, StringSliceAdditionalSpecFns};
use vstd::utf8::{decode_first_scalar, decode_utf8, pop_first_scalar, valid_first_scalar, valid_utf8};

verus! {

// ── Encoding ─────────────────────────────────────────────────────────

/// Where [`EncodedBytes`] stands inside the `%XY` of one encoded byte.
#[derive(Debug)]
enum EncodeState {
    /// Ready to inspect the next input byte.
    Start,
    /// `%` was yielded; the high hex digit of the byte comes next.
    YieldHi(u8),
    /// The high digit was yielded; the low hex digit comes next.
    YieldLo(u8),
}

/// Yields the bytes of the raw-mode percent-encoding of its input one at a
/// time, without allocating.
#[derive(Debug)]
pub struct EncodedBytes<'a> {
    input: &'a [u8],
    set: &'a EncodeSet,
    pos: usize,
    state: EncodeState,
}

/// Hex digits still owed for the byte being encoded.
spec fn pending_digits(state: EncodeState) -> Seq<u8> {
    match state {
        EncodeState::Start => seq![],
        EncodeState::YieldHi(b) => seq![upper_digit(b as int / 16), upper_digit(b as int % 16)],
        EncodeState::YieldLo(b) => seq![upper_digit(b as int % 16)],
    }
}

impl<'a> View for EncodedBytes<'a> {
    type V = Seq<u8>;

    /// The output bytes still to come.
    closed spec fn view(&self) -> Seq<u8> {
        pending_digits(self.state) + raw_from(self.input@, self.set@, false, self.pos as int)
    }
}

impl<'a> EncodedBytes<'a> {
    /// Number of input bytes not yet read.
    pub closed spec fn unread(&self) -> int {
        if self.pos <= self.input@.len() {
            self.input@.len() - self.pos
        } else {
            0
        }
    }

    /// No `%XY` is half-written.
    pub closed spec fn at_byte_boundary(&self) -> bool {
        self.state is Start
    }

    /// Hex digits still owed for a half-written `%XY` (0, 1 or 2).
    pub closed spec fn owed(&self) -> int {
        pending_digits(self.state).len() as int
    }

    /// Create an encoder for the bytes of `input`; each byte in `set` is
    /// yielded as the three bytes `%XY`.
    pub fn new(input: &'a str, set: &'a EncodeSet) -> (r: Self)
        ensures
            r@ == crate::model::raw_encode(input.spec_bytes(), set@, false),
            r.unread() == input.spec_bytes().len(),
            r.at_byte_boundary(),
            r.owed() == 0,
    {
        EncodedBytes { input: input.as_bytes(), set, pos: 0, state: EncodeState::Start }
    }

    /// Create an encoder for raw bytes.
    pub fn new_bytes(input: &'a [u8], set: &'a EncodeSet) -> (r: Self)
        ensures
            r@ == crate::model::raw_encode(input@, set@, false),
            r.unread() == input@.len(),
            r.at_byte_boundary(),
            r.owed() == 0,
    {
        EncodedBytes { input, set, pos: 0, state: EncodeState::Start }
    }

    /// The next byte of the encoding, or `None` once it is exhausted (and
    /// ever after).
    pub fn next(&mut self) -> (r: Option<u8>)
        ensures
            old(self)@.len() == 0 ==> r is None && final(self)@ == old(self)@,
            old(self)@.len() > 0 ==> r == Some(old(self)@[0]) && final(self)@ == old(
                self,
            )@.drop_first(),
            final(self).unread() == if old(self).at_byte_boundary() && old(self).unread() > 0 {
                old(self).unread() - 1
            } else {
                old(self).unread()
            },
    {
        proof {
            lemma_hex_tables();
        }
        match self.state {
            EncodeState::YieldHi(byte) => {
                self.state = EncodeState::YieldLo(byte);
                proof {
                    assert(final(self)@ =~= old(self)@.drop_first());
                }
                Some(HEX_UPPER[(byte / 16) as usize])
            },
            EncodeState::YieldLo(byte) => {
                self.state = EncodeState::Start;
                proof {
                    assert(final(self)@ =~= old(self)@.drop_first());
                }
                Some(HEX_UPPER[(byte % 16) as usize])
            },
            EncodeState::Start => {
                if self.pos >= self.input.len() {
                    return None;
                }
                let byte = self.input[self.pos];
                let ghost rest = raw_from(self.input@, self.set@, false, self.pos + 1);
                proof {
                    lemma_pct_triple(byte);
                    assert(old(self)@ =~= raw_byte(byte, self.set@, false) + rest);
                }
                self.pos = self.pos + 1;
                if self.set.contains(byte) {
                    self.state = EncodeState::YieldHi(byte);
                    proof {
                        assert(final(self)@ =~= old(self)@.drop_first());
                    }
                    Some(0x25)
                } else {
                    proof {
                        assert(final(self)@ =~= old(self)@.drop_first());
                    }
                    Some(byte)
                }
            },
        }
    }

    /// Bounds on the bytes still to come: the hex digits still owed, plus
    /// one to three output bytes per unread input byte. The lower bound
    /// saturates at `usize::MAX`; there is no upper bound when it would
    /// overflow `usize`.
    pub fn size_hint(&self) -> (r: (usize, Option<usize>))
        ensures
            r.0 == if self.owed() + self.unread() <= usize::MAX {
                self.owed() + self.unread()
            } else {
                usize::MAX as int
            },
            r.1 == if self.owed() + 3 * self.unread() <= usize::MAX {
                Some((self.owed() + 3 * self.unread()) as usize)
            } else {
                None
            },
            r.0 <= self@.len(),
            r.1 matches Some(hi) ==> self@.len() <= hi,
    {
        let remaining = if self.pos <= self.input.len() {
            self.input.len() - self.pos
        } else {
            0
        };
        let owed: usize = match self.state {
            EncodeState::Start => 0,
            EncodeState::YieldHi(_) => 2,
            EncodeState::YieldLo(_) => 1,
        };
        proof {
            if self.pos <= self.input@.len() {
                lemma_raw_len_bounds(self.input@, self.set@, self.pos as int);
            } else {
                assert(raw_from(self.input@, self.set@, false, self.pos as int) =~= Seq::<u8>::empty());
            }
        }
        let hi = match remaining.checked_mul(3) {
            Some(t) => t.checked_add(owed),
            None => None,
        };
        (remaining.saturating_add(owed), hi)
    }
}

/// Raw encoding from `i` on takes one to three bytes per input byte.
proof fn lemma_raw_len_bounds(s: Seq<u8>, set: Set<u8>, i: int)
    requires
        0 <= i <= s.len(),
    ensures
        s.len() - i <= raw_from(s, set, false, i).len() <= 3 * (s.len() - i),
    decreases s.len() - i,
{
    if i < s.len() {
        lemma_pct_triple(s[i]);
        lemma_raw_len_bounds(s, set, i + 1);
    }
}

// ── Decoding ─────────────────────────────────────────────────────────

/// A `%` at `pos` that does not start a `%XX`.
pub open spec fn is_stray_pct(s: Seq<u8>, pos: int) -> bool {
    0 <= pos < s.len() && s[pos] == 0x25 && !is_pct_at(s, pos)
}

/// The byte a unit other than a stray `%` decodes to: the value of a
/// `%XX`, or the byte itself.
pub open spec fn unit_byte(s: Seq<u8>, pos: int) -> u8 {
    if is_pct_at(s, pos) {
        pct_value(s, pos)
    } else {
        s[pos]
    }
}

/// The position after the unit at `pos`.
pub open spec fn unit_end(s: Seq<u8>, pos: int) -> int {
    if is_pct_at(s, pos) {
        pos + 3
    } else {
        pos + 1
    }
}

/// Number of decoding units from `i` on: each `%XX` and each other byte.
pub open spec fn unit_count_from(s: Seq<u8>, i: int) -> int
    decreases s.len() - i,
{
    if 0 <= i < s.len() {
        1 + unit_count_from(s, unit_end(s, i))
    } else {
        0
    }
}

/// Number of units from `i` on that each yield a character of their own
/// whatever surrounds them: a byte below `0x80` (a stray `%` included) and
/// a `%XX` that denotes one.
pub open spec fn sure_char_count_from(s: Seq<u8>, i: int) -> int
    decreases s.len() - i,
{
    if 0 <= i < s.len() {
        (if (is_pct_at(s, i) && pct_value(s, i) < 0x80) || (!is_pct_at(s, i) && s[i] < 0x80) {
            1int
        } else {
            0int
        }) + sure_char_count_from(s, unit_end(s, i))
    } else {
        0
    }
}

/// The character `t` starts with when it is valid UTF-8, `U+FFFD` otherwise.
spec fn first_char(t: Seq<u8>) -> char {
    if valid_utf8(t) && decode_utf8(t).len() > 0 {
        decode_utf8(t)[0]
    } else {
        replacement_char()
    }
}

/// Decoded bytes waiting for the rest of their character: none, or the
/// start of some character's encoding.
spec fn pending_ok(w: Seq<u8>) -> bool {
    w.len() == 0 || is_utf8_partial(w)
}

/// The characters yielded by one step, as a sequence.
spec fn emitted(c: Option<char>) -> Seq<char> {
    match c {
        Some(x) => seq![x],
        None => seq![],
    }
}

/// One unit of streaming decoding from input position `pos` with the
/// bytes `w` waiting: the character yielded (if any), the new position and
/// the new waiting bytes.
spec fn decode_step(s: Seq<u8>, pos: int, w: Seq<u8>) -> (Option<char>, int, Seq<u8>) {
    if pos >= s.len() {
        if w.len() > 0 {
            (Some(replacement_char()), pos, seq![])
        } else {
            (None, pos, w)
        }
    } else if is_stray_pct(s, pos) {
        if w.len() > 0 {
            (Some(replacement_char()), pos, seq![])
        } else {
            (Some(replacement_char()), pos + 1, seq![])
        }
    } else {
        let b = unit_byte(s, pos);
        let np = unit_end(s, pos);
        if w.len() == 0 {
            if b < 0x80 {
                (Some(b as char), np, seq![])
            } else if utf8_width(b) == 0 {
                (Some(replacement_char()), np, seq![])
            } else {
                (None, np, seq![b])
            }
        } else if !is_utf8_prefix(w.push(b)) {
            (Some(replacement_char()), pos, seq![])
        } else if w.len() + 1 == utf8_width(w[0]) {
            (Some(decode_first_scalar(w.push(b)) as char), np, seq![])
        } else {
            (None, np, w.push(b))
        }
    }
}

/// Every prefix of a prefix of a character's encoding is one too.
proof fn lemma_prefix_closed(t: Seq<u8>, j: int)
    requires
        is_utf8_prefix(t),
        1 <= j <= t.len(),
    ensures
        is_utf8_prefix(t.take(j)),
{
    let u = t.take(j);
    assert(u[0] == t[0]);
    if j >= 2 {
        assert(u[1] == t[1]);
    }
    if j >= 3 {
        assert(u[2] == t[2]);
    }
    if j >= 4 {
        assert(u[3] == t[3]);
    }
}

/// A complete character's encoding, then more bytes: the character, then
/// the lossy decoding of the rest.
proof fn lemma_lossy_complete(t: Seq<u8>, r: Seq<u8>)
    requires
        is_utf8_prefix(t),
        t.len() == utf8_width(t[0]),
    ensures
        lossy_utf8(t + r) == seq![decode_first_scalar(t) as char] + lossy_utf8(r),
        valid_utf8(t),
        decode_utf8(t) == seq![decode_first_scalar(t) as char],
{
    let b = t + r;
    let n = t.len() as int;
    assert(b[0] == t[0]);
    assert(b.take(n) =~= t);
    assert(t.take(n) =~= t);
    lemma_valid_first_scalar_width(b);
    lemma_valid_first_scalar_width(t);
    assert(pop_first_scalar(b) =~= r);
    assert(pop_first_scalar(t) =~= Seq::<u8>::empty());
    if n >= 2 {
        assert(b[1] == t[1]);
    }
    if n >= 3 {
        assert(b[2] == t[2]);
    }
    if n >= 4 {
        assert(b[3] == t[3]);
    }
    assert(decode_first_scalar(b) == decode_first_scalar(t));
    let e = Seq::<u8>::empty();
    assert(valid_utf8(e));
    assert(valid_utf8(t));
    assert(decode_utf8(e) =~= Seq::<char>::empty());
    assert(decode_utf8(t) == seq![decode_first_scalar(t) as char] + decode_utf8(e));
    assert(decode_utf8(t) =~= seq![decode_first_scalar(t) as char]);
}

/// A byte that starts no character's encoding becomes `U+FFFD`.
proof fn lemma_lossy_bad_lead(x: u8, r: Seq<u8>)
    requires
        utf8_width(x) == 0,
    ensures
        lossy_utf8(seq![x] + r) == seq![replacement_char()] + lossy_utf8(r),
{
    let b = seq![x] + r;
    assert(b[0] == x);
    lemma_valid_first_scalar_width(b);
    assert(maximal_subpart_len(b) == 1);
    assert(b.skip(1) =~= r);
}

/// Waiting bytes followed by a byte that cannot continue them: one
/// `U+FFFD` for the waiting bytes, then the lossy decoding of the rest.
proof fn lemma_lossy_flush(w: Seq<u8>, x: Seq<u8>)
    requires
        is_utf8_partial(w),
        x.len() > 0,
        !is_utf8_prefix(w.push(x[0])),
    ensures
        lossy_utf8(w + x) == seq![replacement_char()] + lossy_utf8(x),
{
    let b = w + x;
    let k = w.len() as int;
    assert(b[0] == w[0]);
    assert(b.take(k + 1) =~= w.push(x[0]));
    assert(b.take(k) =~= w);
    lemma_valid_first_scalar_width(b);
    if valid_first_scalar(b) {
        lemma_prefix_closed(b.take(utf8_width(b[0])), k + 1);
        assert(b.take(utf8_width(b[0])).take(k + 1) =~= b.take(k + 1));
    }
    if k == 1 && b.len() >= 3 && is_utf8_partial(b.take(3)) {
        lemma_prefix_closed(b.take(3), 2);
        assert(b.take(3).take(2) =~= b.take(2));
    }
    assert(maximal_subpart_len(b) == k);
    assert(b.skip(k) =~= x);
}

/// Waiting bytes at the end of the input become one `U+FFFD`.
proof fn lemma_lossy_end(w: Seq<u8>)
    requires
        is_utf8_partial(w),
    ensures
        lossy_utf8(w) == seq![replacement_char()],
{
    let k = w.len() as int;
    assert(w.take(k) =~= w);
    lemma_valid_first_scalar_width(w);
    assert(maximal_subpart_len(w) == k);
    assert(w.skip(k) =~= Seq::<u8>::empty());
    assert(lossy_utf8(Seq::<u8>::empty()) =~= Seq::<char>::empty());
}

/// The encoding of `U+FFFD` is a complete character's encoding.
proof fn lemma_replacement_bytes()
    ensures
        is_utf8_prefix(replacement_bytes()),
        replacement_bytes().len() == utf8_width(replacement_bytes()[0]),
        decode_first_scalar(replacement_bytes()) as char == replacement_char(),
{
    let t = replacement_bytes();
    assert(t[0] == 0xef && t[1] == 0xbf && t[2] == 0xbd);
    assert((((0xefu8 & 0x0f) as u32) << 12) | (((0xbfu8 & 0x3f) as u32) << 6) | ((0xbdu8
        & 0x3f) as u32) == 0xfffd) by (bit_vector);
}

/// One step of streaming decoding yields the first characters of the lossy
/// decoding of the waiting bytes and the decoded rest of the input.
proof fn lemma_decode_step(s: Seq<u8>, pos: int, w: Seq<u8>)
    requires
        0 <= pos <= s.len(),
        pending_ok(w),
    ensures
        ({
            let (c, p2, w2) = decode_step(s, pos, w);
            &&& lossy_utf8(w + decode_replacing_from(s, pos)) == emitted(c) + lossy_utf8(
                w2 + decode_replacing_from(s, p2),
            )
            &&& pos <= p2 <= s.len()
            &&& pending_ok(w2)
            &&& w2.len() > 0 ==> p2 > 0
            &&& c is None && pos == s.len() ==> w.len() == 0 && w2 == w && p2 == pos
            &&& (c is Some || pos < s.len()) ==> (s.len() - p2) * 2 + (if w2.len() > 0 {
                1int
            } else {
                0int
            }) < (s.len() - pos) * 2 + (if w.len() > 0 {
                1int
            } else {
                0int
            })
            &&& sure_char_count_from(s, pos) <= emitted(c).len() + sure_char_count_from(s, p2)
            &&& emitted(c).len() + unit_count_from(s, p2) + (if w2.len() > 0 {
                1int
            } else {
                0int
            }) <= unit_count_from(s, pos) + (if w.len() > 0 {
                1int
            } else {
                0int
            })
        }),
{
    let d = decode_replacing_from(s, pos);
    let e = Seq::<u8>::empty();
    if pos >= s.len() {
        assert(d =~= e);
        assert(w + d =~= w);
        if w.len() > 0 {
            lemma_lossy_end(w);
            assert(e + e =~= e);
            assert(lossy_utf8(e) =~= Seq::<char>::empty());
        }
    } else if is_stray_pct(s, pos) {
        let x = replacement_bytes() + decode_replacing_from(s, pos + 1);
        assert(d == x);
        lemma_replacement_bytes();
        assert(x[0] == 0xef);
        if w.len() > 0 {
            assert(!is_utf8_prefix(w.push(x[0]))) by {
                let u = w.push(x[0]);
                assert(u[w.len() as int] == 0xef);
                if w.len() == 1 {
                    assert(u[0] == w[0]);
                }
            }
            lemma_lossy_flush(w, x);
            assert(e + d =~= d);
        } else {
            assert(w + d =~= d);
            lemma_lossy_complete(replacement_bytes(), decode_replacing_from(s, pos + 1));
            assert(e + decode_replacing_from(s, pos + 1) =~= decode_replacing_from(s, pos + 1));
        }
    } else {
        let b = unit_byte(s, pos);
        let np = unit_end(s, pos);
        let rest = decode_replacing_from(s, np);
        assert(d == seq![b] + rest);
        if w.len() == 0 {
            assert(w + d =~= d);
            if b < 0x80 {
                let t = seq![b];
                assert(t[0] == b);
                lemma_lossy_complete(t, rest);
                assert((b & 0x7f) as u32 == b as u32) by (bit_vector)
                    requires
                        b < 0x80,
                ;
                assert(e + rest =~= rest);
            } else if utf8_width(b) == 0 {
                lemma_lossy_bad_lead(b, rest);
                assert(e + rest =~= rest);
            } else {
                assert(seq![b][0] == b);
            }
        } else if !is_utf8_prefix(w.push(b)) {
            assert(d[0] == b);
            lemma_lossy_flush(w, d);
            assert(e + d =~= d);
        } else if w.len() + 1 == utf8_width(w[0]) {
            let t = w.push(b);
            assert(t[0] == w[0]);
            lemma_lossy_complete(t, rest);
            assert(w + d =~= t + rest);
            assert(e + rest =~= rest);
        } else {
            let t = w.push(b);
            assert(t[0] == w[0]);
            assert(w + d =~= t + rest);
        }
    }
}

/// The characters still to come from a decoding state lie between the sure
/// characters and one per unit (plus one for waiting bytes).
proof fn lemma_decode_bounds(s: Seq<u8>, pos: int, w: Seq<u8>)
    requires
        0 <= pos <= s.len(),
        pending_ok(w),
    ensures
        sure_char_count_from(s, pos) <= lossy_utf8(w + decode_replacing_from(s, pos)).len(),
        lossy_utf8(w + decode_replacing_from(s, pos)).len() <= unit_count_from(s, pos) + (if w.len()
            > 0 {
            1int
        } else {
            0int
        }),
    decreases (s.len() - pos) * 2 + (if w.len() > 0 {
        1int
    } else {
        0int
    }),
{
    lemma_decode_step(s, pos, w);
    let (c, p2, w2) = decode_step(s, pos, w);
    if c is Some || pos < s.len() {
        lemma_decode_bounds(s, p2, w2);
    } else {
        assert(decode_replacing_from(s, pos) =~= Seq::<u8>::empty());
        assert(w + decode_replacing_from(s, pos) =~= Seq::<u8>::empty());
    }
}

/// Yields the characters of a percent-encoded input one at a time, without
/// allocating: the input is decoded as [`crate::decode`] decodes it (a `%`
/// that starts no `%XX` becomes `U+FFFD`), and the decoded bytes are
/// assembled into UTF-8 characters, each maximal ill-formed subpart
/// becoming one `U+FFFD`.
#[derive(Debug)]
pub struct DecodedChars<'a> {
    input: &'a [u8],
    pos: usize,
    utf8_buf: [u8; 4],
    utf8_len: usize,
}

impl<'a> DecodedChars<'a> {
    /// The input position is in range, and the waiting bytes (at most
    /// three, and only once input was read) begin some character's
    /// encoding.
    #[verifier::type_invariant]
    spec fn inv(self) -> bool {
        &&& self.pos <= self.input@.len()
        &&& self.utf8_len <= 3
        &&& self.utf8_len > 0 ==> is_utf8_partial(self.utf8_buf@.take(self.utf8_len as int))
            && self.pos > 0
    }

    /// The bytes being decoded.
    pub closed spec fn source(&self) -> Seq<u8> {
        self.input@
    }

    /// Input position.
    pub closed spec fn position(&self) -> int {
        self.pos as int
    }

    /// Decoded bytes waiting for the rest of their character.
    pub closed spec fn waiting(&self) -> Seq<u8> {
        self.utf8_buf@.take(self.utf8_len as int)
    }
}

impl<'a> View for DecodedChars<'a> {
    type V = Seq<char>;

    /// The characters still to come.
    closed spec fn view(&self) -> Seq<char> {
        lossy_utf8(
            self.utf8_buf@.take(self.utf8_len as int) + decode_replacing_from(
                self.input@,
                self.pos as int,
            ),
        )
    }
}

impl<'a> DecodedChars<'a> {
    /// Create a decoder for `input` (lossy mode).
    pub fn new(input: &'a str) -> (r: Self)
        ensures
            r@ == lossy_utf8(decode_replacing(input.spec_bytes())),
            r.source() == input.spec_bytes(),
            r.position() == 0,
            r.waiting() == Seq::<u8>::empty(),
    {
        let r = DecodedChars { input: input.as_bytes(), pos: 0, utf8_buf: [0, 0, 0, 0], utf8_len: 0 };
        proof {
            assert(r.waiting() =~= Seq::<u8>::empty());
            assert(r.waiting() + decode_replacing(input.spec_bytes()) =~= decode_replacing(
                input.spec_bytes(),
            ));
        }
        r
    }

    /// Create a decoder for raw bytes (lossy mode).
    pub fn new_bytes(input: &'a [u8]) -> (r: Self)
        ensures
            r@ == lossy_utf8(decode_replacing(input@)),
            r.source() == input@,
            r.position() == 0,
            r.waiting() == Seq::<u8>::empty(),
    {
        let r = DecodedChars { input, pos: 0, utf8_buf: [0, 0, 0, 0], utf8_len: 0 };
        proof {
            assert(r.waiting() =~= Seq::<u8>::empty());
            assert(r.waiting() + decode_replacing(input@) =~= decode_replacing(input@));
        }
        r
    }

    /// The next decoded character, or `None` once the input is exhausted
    /// (and ever after).
    pub fn next(&mut self) -> (r: Option<char>)
        ensures
            final(self).source() == old(self).source(),
            old(self)@ == match r {
                None => Seq::<char>::empty(),
                Some(c) => seq![c] + final(self)@,
            },
            r is None ==> final(self)@ == old(self)@,
    {
        proof {
            use_type_invariant(&*self);
        }
        loop
            invariant
                self.input@ == old(self).input@,
                self@ == old(self)@,
                self.pos <= self.input@.len(),
            decreases (self.input@.len() - self.pos) * 2 + (if self.utf8_len > 0 {
                1int
            } else {
                0int
            }),
        {
            proof {
                use_type_invariant(&*self);
            }
            let ghost s = self.input@;
            let ghost p = self.pos as int;
            let ghost w = self.waiting();
            proof {
                lemma_decode_step(s, p, w);
            }
            let len = self.input.len();
            if self.pos >= len {
                if self.utf8_len > 0 {
                    self.utf8_len = 0;
                    proof {
                        assert(self.waiting() =~= Seq::<u8>::empty());
                    }
                    return Some('\u{FFFD}');
                }
                return None;
            }
            let byte = self.input[self.pos];
            let is_triple = byte == 0x25 && len - self.pos > 2 && is_hex(self.input[self.pos + 1])
                && is_hex(self.input[self.pos + 2]);
            if byte == 0x25 && !is_triple {
                if self.utf8_len > 0 {
                    self.utf8_len = 0;
                    proof {
                        assert(self.waiting() =~= Seq::<u8>::empty());
                    }
                    return Some('\u{FFFD}');
                }
                self.pos = self.pos + 1;
                return Some('\u{FFFD}');
            }
            let b = if is_triple {
                decode_hex_pair(self.input[self.pos + 1], self.input[self.pos + 2])
            } else {
                byte
            };
            let next_pos = if is_triple {
                self.pos + 3
            } else {
                self.pos + 1
            };
            if self.utf8_len == 0 {
                if b < 0x80 {
                    self.pos = next_pos;
                    return Some(byte_char(b));
                }
                if utf8_width_of(b) == 0 {
                    self.pos = next_pos;
                    return Some('\u{FFFD}');
                }
                self.utf8_buf[0] = b;
                self.pos = next_pos;
                self.utf8_len = 1;
                proof {
                    assert(self.waiting() =~= seq![b]);
                }
            } else {
                let n = self.utf8_len;
                if !continues_char(&self.utf8_buf, n, b) {
                    self.utf8_len = 0;
                    proof {
                        assert(self.waiting() =~= Seq::<u8>::empty());
                    }
                    return Some('\u{FFFD}');
                }
                let width = utf8_width_of(self.utf8_buf[0]);
                self.utf8_buf[n] = b;
                proof {
                    assert(self.utf8_buf@.take(n + 1) =~= w.push(b));
                    assert(w.push(b)[0] == w[0]);
                }
                if n + 1 == width {
                    let ch = first_char_of(&self.utf8_buf[0..width]);
                    proof {
                        assert(self.utf8_buf@.subrange(0, width as int) =~= w.push(b));
                        lemma_lossy_complete(w.push(b), Seq::<u8>::empty());
                    }
                    self.pos = next_pos;
                    self.utf8_len = 0;
                    proof {
                        assert(self.waiting() =~= Seq::<u8>::empty());
                    }
                    return Some(ch);
                }
                self.pos = next_pos;
                self.utf8_len = n + 1;
            }
        }
    }

    /// Bounds on the characters still to come. The lower bound is a third
    /// of the unread input, but no more than the units sure to yield a
    /// character of their own; the upper bound is one per unread unit, plus
    /// one for bytes waiting for the rest of their character.
    pub fn size_hint(&self) -> (r: (usize, Option<usize>))
        ensures
            r.0 == if (self.source().len() - self.position()) / 3 <= sure_char_count_from(
                self.source(),
                self.position(),
            ) {
                (self.source().len() - self.position()) / 3
            } else {
                sure_char_count_from(self.source(), self.position())
            },
            r.1 == Some(
                (unit_count_from(self.source(), self.position()) + if self.waiting().len() > 0 {
                    1int
                } else {
                    0int
                }) as usize,
            ),
            r.0 <= self@.len(),
            r.1 matches Some(hi) && self@.len() <= hi,
    {
        proof {
            use_type_invariant(self);
            lemma_decode_bounds(self.input@, self.pos as int, self.waiting());
        }
        let len = self.input.len();
        let remaining = len - self.pos;
        let mut i: usize = self.pos;
        let mut units: usize = 0;
        let mut sure: usize = 0;
        while i < len
            invariant
                self.pos <= i <= len,
                len == self.input@.len(),
                units + unit_count_from(self.input@, i as int) == unit_count_from(
                    self.input@,
                    self.pos as int,
                ),
                sure + sure_char_count_from(self.input@, i as int) == sure_char_count_from(
                    self.input@,
                    self.pos as int,
                ),
                units <= i - self.pos,
                sure <= units,
            decreases len - i,
        {
            if self.input[i] == 0x25 && len - i > 2 && is_hex(self.input[i + 1]) && is_hex(
                self.input[i + 2],
            ) {
                if decode_hex_pair(self.input[i + 1], self.input[i + 2]) < 0x80 {
                    sure = sure + 1;
                }
                units = units + 1;
                i = i + 3;
            } else {
                if self.input[i] < 0x80 {
                    sure = sure + 1;
                }
                units = units + 1;
                i = i + 1;
            }
        }
        let third = remaining / 3;
        let lo = if third <= sure {
            third
        } else {
            sure
        };
        let hi = if self.utf8_len > 0 {
            units + 1
        } else {
            units
        };
        (lo, Some(hi))
    }
}

/// Number of bytes in the encoding of a character that starts with `lead`;
/// 0 when none does.
fn utf8_width_of(lead: u8) -> (r: usize)
    ensures
        r == utf8_width(lead),
{
    if lead < 0x80 {
        1
    } else if 0xc2 <= lead && lead <= 0xdf {
        2
    } else if 0xe0 <= lead && lead <= 0xef {
        3
    } else if 0xf0 <= lead && lead <= 0xf4 {
        4
    } else {
        0
    }
}

/// The waiting bytes `buf[..n]` followed by `b` still begin some
/// character's encoding.
fn continues_char(buf: &[u8; 4], n: usize, b: u8) -> (r: bool)
    requires
        1 <= n <= 3,
        is_utf8_partial(buf@.take(n as int)),
    ensures
        r == is_utf8_prefix(buf@.take(n as int).push(b)),
{
    let ghost w = buf@.take(n as int);
    let ghost t = w.push(b);
    proof {
        assert(t[0] == buf@[0]);
        assert(t[n as int] == b);
        if n >= 2 {
            assert(t[1] == w[1]);
        }
        if n >= 3 {
            assert(t[2] == w[2]);
        }
    }
    let lead = buf[0];
    if n == 1 {
        if lead == 0xe0 {
            0xa0 <= b && b <= 0xbf
        } else if lead == 0xed {
            0x80 <= b && b <= 0x9f
        } else if lead == 0xf0 {
            0x90 <= b && b <= 0xbf
        } else if lead == 0xf4 {
            0x80 <= b && b <= 0x8f
        } else {
            0x80 <= b && b <= 0xbf
        }
    } else {
        0x80 <= b && b <= 0xbf
    }
}

/// The character whose number is the byte `b`.
fn byte_char(b: u8) -> (c: char)
    ensures
        c == b as char,
{
    b as char
}

/// The character `t` starts with when it is valid UTF-8, `U+FFFD` otherwise.
fn first_char_of(t: &[u8]) -> (c: char)
    ensures
        c == first_char(t@),
{
    match str_from_utf8(t) {
        Some(s) => {
            if s.is_empty() {
                '\u{FFFD}'
            } else {
                s.get_char(0)
            }
        },
        None => '\u{FFFD}',
    }
}

} // verus!
