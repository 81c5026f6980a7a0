//! Explicit encoding and decoding modes for the different URL standards.
use crate::decode::decode;
use crate::encode::encode_with;
use crate::form::{decode_form, encode_form, has_form_escape};
use crate::model::{
    decode_replacing, form_decode, form_encode, has_pct, holds_high_bytes, idem_encode,
};
use crate::set::{component_bytes, whatwg_bytes, EncodeSet};
use crate::lossy::lossy_utf8;
use std::borrow::Cow;
use vstd::prelude::*;
use vstd::string::StringSliceAdditionalSpecFns;
use vstd::utf8::encode_utf8;

verus! {

/// Explicit encoding and decoding modes: RFC 3986, the WHATWG URL Standard,
/// and HTML form encoding.
///
/// | Context | Method | Space | `+` sign |
/// |---------|--------|-------|----------|
/// | URL path / component | [`encode_rfc3986`](Self::encode_rfc3986) | `%20` | `%2B` |
/// | WHATWG URL parsing | [`encode_whatwg`](Self::encode_whatwg) | `%20` | passed through |
/// | HTML `<form>` submission | [`encode_html_form`](Self::encode_html_form) | `+` | `%2B` |
pub struct Pct;

/// The text of a `Cow`, owned.
pub(crate) fn cow_into_string(c: Cow<'_, str>) -> (r: String)
    ensures
        r@ == c@,
{
    match c {
        Cow::Borrowed(s) => s.to_owned(),
        Cow::Owned(s) => s,
    }
}

impl Pct {
    /// Encode with strict RFC 3986 rules: only unreserved characters pass
    /// through; everything else is percent-encoded (idempotently, as
    /// [`crate::encode`] does). Always returns an owned `String`.
    pub fn encode_rfc3986(input: &str) -> (r: String)
        ensures
            encode_utf8(r@) == idem_encode(input.spec_bytes(), component_bytes()),
    {
        let set = EncodeSet::component();
        proof {
            assert(holds_high_bytes(set@));
        }
        cow_into_string(encode_with(input, &set))
    }

    /// Encode following the WHATWG URL Standard: URL code points such as
    /// `!`, `'`, `(`, `)`, `*`, `+`, `,`, `/`, `:`, `;`, `=`, `?`, `@` pass
    /// through; only the [`EncodeSet::whatwg`] bytes are encoded.
    pub fn encode_whatwg(input: &str) -> (r: String)
        ensures
            encode_utf8(r@) == idem_encode(input.spec_bytes(), whatwg_bytes()),
    {
        let set = EncodeSet::whatwg();
        proof {
            assert(holds_high_bytes(set@));
        }
        cow_into_string(encode_with(input, &set))
    }

    /// Encode for HTML form submission: spaces become `+`, a literal `+`
    /// becomes `%2B`. Same as [`crate::encode_form`].
    pub fn encode_html_form(input: &str) -> (r: String)
        ensures
            encode_utf8(r@) == form_encode(input.spec_bytes(), false),
    {
        encode_form(input)
    }

    /// Decode an RFC 3986 percent-encoded string (lossy). Same as
    /// [`crate::decode`].
    pub fn decode_rfc3986(input: &str) -> (r: Cow<'_, str>)
        ensures
            r@ == lossy_utf8(decode_replacing(input.spec_bytes())),
            (r matches Cow::Borrowed(_)) <==> !has_pct(input.spec_bytes()),
    {
        decode(input)
    }

    /// Decode following the WHATWG URL Standard (lossy); at the level of
    /// percent-decoding this is the same as RFC 3986 decoding.
    pub fn decode_whatwg(input: &str) -> (r: Cow<'_, str>)
        ensures
            r@ == lossy_utf8(decode_replacing(input.spec_bytes())),
            (r matches Cow::Borrowed(_)) <==> !has_pct(input.spec_bytes()),
    {
        decode(input)
    }

    /// Decode an `application/x-www-form-urlencoded` string. Same as
    /// [`crate::decode_form`].
    pub fn decode_html_form(input: &str) -> (r: Cow<'_, str>)
        ensures
            r@ == lossy_utf8(form_decode(input.spec_bytes())),
            (r matches Cow::Borrowed(_)) <==> !has_form_escape(input.spec_bytes()),
    {
        decode_form(input)
    }
}

} // verus!
