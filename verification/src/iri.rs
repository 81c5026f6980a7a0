//! IRI to URI encoding: percent-encode the UTF-8 bytes of non-ASCII
//! characters, and the ASCII characters that are not unreserved.
use crate::encode::push_pct_triple;
use crate::model::{lemma_raw_ascii, raw_encode, raw_from};
use crate::normalize::is_unreserved;
use crate::set::component_bytes;
use crate::text::{
    lemma_ascii_valid_utf8, lemma_drop_ascii_prefix, lemma_first_scalar_parts,
    lemma_seq_len_of_valid, lemma_text_bytes, utf8_seq_len, valid_bytes_to_string,
};
use vstd::prelude::*;
use vstd::string::StringSliceAdditionalSpecFns;
use vstd::utf8::{encode_utf8, length_of_first_scalar, valid_utf8};

verus! {

/// Encode an IRI (Internationalized Resource Identifier) to a URI.
///
/// The UTF-8 bytes of every non-ASCII character are percent-encoded, and so
/// is every ASCII character that is not unreserved: the output is the raw
/// encoding of the input with the component set, and is pure ASCII.
pub fn encode_iri(input: &str) -> (r: String)
    ensures
        encode_utf8(r@) == raw_encode(input.spec_bytes(), component_bytes(), false),
{
    let bytes = input.as_bytes();
    let ghost s = bytes@;
    let ghost comp = component_bytes();
    proof {
        lemma_text_bytes(input@);
        assert(s.subrange(0, s.len() as int) =~= s);
    }
    let mut out: Vec<u8> = Vec::with_capacity(bytes.len());
    let mut i: usize = 0;
    let len = bytes.len();
    while i < len
        invariant
            s == bytes@,
            len == s.len(),
            i <= len,
            valid_utf8(s.subrange(i as int, len as int)),
            raw_encode(s, comp, false) == out@ + raw_from(s, comp, false, i as int),
            comp == component_bytes(),
        decreases len - i,
    {
        let ghost x = s.subrange(i as int, len as int);
        proof {
            lemma_first_scalar_parts(x);
            lemma_seq_len_of_valid(x);
            assert(x[0] == s[i as int]);
        }
        let byte = bytes[i];
        if byte < 0x80 {
            if is_unreserved(byte) {
                out.push(byte);
            } else {
                push_pct_triple(&mut out, byte);
            }
            proof {
                lemma_drop_ascii_prefix(x, 1);
                assert(x.subrange(1, x.len() as int) =~= s.subrange(i + 1, len as int));
            }
            i = i + 1;
        } else {
            let seq_len = utf8_seq_len(byte);
            let ghost w = length_of_first_scalar(x);
            let mut j: usize = 0;
            while j < seq_len
                invariant
                    s == bytes@,
                    len == s.len(),
                    i < len,
                    seq_len == w,
                    w <= len - i,
                    j <= seq_len,
                    x == s.subrange(i as int, len as int),
                    forall|k: int| 1 <= k < w ==> #[trigger] x[k] >= 0x80,
                    x[0] >= 0x80,
                    raw_encode(s, comp, false) == out@ + raw_from(s, comp, false, i + j),
                    comp == component_bytes(),
                decreases seq_len - j,
            {
                if j < len - i {
                    let b = bytes[i + j];
                    proof {
                        assert(b == x[j as int]);
                        assert(b >= 0x80);
                        assert(comp.contains(b));
                    }
                    push_pct_triple(&mut out, b);
                }
                j = j + 1;
            }
            proof {
                assert(x.subrange(w, x.len() as int) =~= s.subrange(i + w, len as int));
            }
            if seq_len > len - i {
                i = len;
            } else {
                i = i + seq_len;
            }
        }
    }
    proof {
        lemma_raw_ascii(s, comp, false, 0);
        lemma_ascii_valid_utf8(raw_encode(s, comp, false));
    }
    valid_bytes_to_string(out)
}

} // verus!
