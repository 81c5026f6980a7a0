//! `pct`: percent-encoding and decoding for URLs.
//!
//! - Idempotent encoding: bare `%` becomes `%25`, already-encoded `%XX`
//!   sequences are kept (with uppercase hex digits).
//! - `+` is encoded as `%2B` in URL mode; `application/x-www-form-urlencoded`
//!   has its own encoder and decoder (space as `+`).
//! - Arbitrary binary data, predefined context sets, lossy / strict /
//!   passthrough decoding, normalization and validation.
//! - Borrowed results when nothing needs to change, allocation-free
//!   scanning, fixed-buffer encoding and streaming encoders and decoders.
//! - Explicit RFC 3986 / WHATWG / HTML-form modes through [`Pct`].
//!
//! Every function states what it returns over the model in [`model`]: byte
//! sequences and the transformations encoding and decoding apply to them.
pub mod hex;
pub mod set;
pub mod model;
pub mod scan;
pub mod text;
pub mod lossy;
pub mod encode;
pub mod decode;
pub mod form;
pub mod normalize;
pub mod iri;
pub mod const_encode;
pub mod stream;
pub mod simd;
pub mod modes;
pub mod laws;

pub use const_encode::{
    const_encode_to_buf, const_encoded_len, CONST_ENCODE_BUF_SIZE, MAX_CONST_INPUT_LEN,
};
pub use decode::{decode, decode_bytes, decode_passthrough, decode_strict, DecodeError};
pub use encode::{encode, encode_bytes, encode_raw, encode_with};
pub use form::{decode_form, encode_form, encode_form_bytes};
pub use hex::{decode_hex_pair, hex_val, is_hex, is_hex_lower, HEX_LOWER, HEX_UPPER};
pub use iri::encode_iri;
pub use modes::Pct;
pub use normalize::normalize;
pub use scan::{
    encoded_len_idempotent, encoded_len_raw, find_first_byte, find_first_byte_idempotent,
    find_first_byte_raw, is_valid, is_valid_bytes, needs_encoding_idempotent, needs_encoding_raw,
};
pub use set::EncodeSet;
pub use simd::{find_first_byte_idempotent_simd, find_first_byte_raw_simd, find_first_byte_simd};
pub use stream::{DecodedChars, EncodedBytes};

use crate::model::{decode_replacing, has_pct, holds_high_bytes, idem_encode};
use crate::set::{component_bytes, fragment_bytes, path_bytes, query_bytes};
use crate::lossy::lossy_utf8;
use std::borrow::Cow;
use vstd::prelude::*;
use vstd::string::StringSliceAdditionalSpecFns;
use vstd::utf8::encode_utf8;

verus! {

/// Percent-encode a string for a URL **path segment**: the path set (keeps
/// `/`), idempotently.
pub fn encode_for_path(input: &str) -> (r: Cow<'_, str>)
    ensures
        encode_utf8(r@) == idem_encode(input.spec_bytes(), path_bytes()),
        (r matches Cow::Borrowed(_)) <==> idem_encode(input.spec_bytes(), path_bytes())
            == input.spec_bytes(),
{
    let set = EncodeSet::path();
    proof {
        assert(holds_high_bytes(set@));
    }
    encode_with(input, &set)
}

/// Percent-encode a string for a URL **query string**: the query set (keeps
/// `?`, `=`, `&`), idempotently. For a single parameter value use
/// [`encode`].
pub fn encode_for_query(input: &str) -> (r: Cow<'_, str>)
    ensures
        encode_utf8(r@) == idem_encode(input.spec_bytes(), query_bytes()),
        (r matches Cow::Borrowed(_)) <==> idem_encode(input.spec_bytes(), query_bytes())
            == input.spec_bytes(),
{
    let set = EncodeSet::query();
    proof {
        assert(holds_high_bytes(set@));
    }
    encode_with(input, &set)
}

/// Percent-encode a string for a URL **fragment**: the fragment set (keeps
/// `#`), idempotently.
pub fn encode_for_fragment(input: &str) -> (r: Cow<'_, str>)
    ensures
        encode_utf8(r@) == idem_encode(input.spec_bytes(), fragment_bytes()),
        (r matches Cow::Borrowed(_)) <==> idem_encode(input.spec_bytes(), fragment_bytes())
            == input.spec_bytes(),
{
    let set = EncodeSet::fragment();
    proof {
        assert(holds_high_bytes(set@));
    }
    encode_with(input, &set)
}

/// Percent-encode a string for an isolated URL **component**; the same as
/// [`encode`].
pub fn encode_for_component(input: &str) -> (r: Cow<'_, str>)
    ensures
        encode_utf8(r@) == idem_encode(input.spec_bytes(), component_bytes()),
        (r matches Cow::Borrowed(_)) <==> idem_encode(input.spec_bytes(), component_bytes())
            == input.spec_bytes(),
{
    encode(input)
}

/// A string that renders percent-encoded: [`Encoded::to_string`] gives
/// [`encode`] of the wrapped string.
pub struct Encoded<'a>(pub &'a str);

impl<'a> Encoded<'a> {
    /// The wrapped string, percent-encoded with [`encode`].
    pub fn to_string(&self) -> (r: String)
        ensures
            encode_utf8(r@) == idem_encode(self.0.spec_bytes(), component_bytes()),
    {
        crate::modes::cow_into_string(encode(self.0))
    }
}

/// Percent-encoding and decoding as methods on string slices.
pub trait PercentEncode {
    /// Percent-encode this string (idempotent, component set).
    fn percent_encode(&self) -> Cow<'_, str>;

    /// Percent-decode this string (lossy).
    fn percent_decode(&self) -> Cow<'_, str>;
}

impl PercentEncode for str {
    fn percent_encode(&self) -> (r: Cow<'_, str>)
        ensures
            encode_utf8(r@) == idem_encode(self.spec_bytes(), component_bytes()),
    {
        encode(self)
    }

    fn percent_decode(&self) -> (r: Cow<'_, str>)
        ensures
            r@ == lossy_utf8(decode_replacing(self.spec_bytes())),
            (r matches Cow::Borrowed(_)) <==> !has_pct(self.spec_bytes()),
    {
        decode(self)
    }
}

} // verus!
