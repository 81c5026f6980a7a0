# pct

Percent-encoding and decoding for URLs, written in Verus: every function in
`src/` carries a contract that Verus proves.

- `src/model.rs` states what encoding, decoding, form encoding and
  normalization produce, as functions on byte sequences read left to right.
- `src/set.rs`: `EncodeSet`, a 256-bit set, and the predefined sets.
- `src/scan.rs`, `src/simd.rs`: allocation-free scans (first byte that needs
  work, encoded lengths, validation); the block-wise scans skip clean
  32-byte blocks.
- `src/encode.rs`, `src/decode.rs`, `src/form.rs`, `src/normalize.rs`,
  `src/iri.rs`, `src/const_encode.rs`, `src/modes.rs`: the encoders and
  decoders.
- `src/stream.rs`: byte-at-a-time encoder and character-at-a-time decoder;
  the decoder yields the lossy UTF-8 decoding of the decoded bytes.
- `src/lossy.rs`: lossy UTF-8 decoding as a spec (one `U+FFFD` per maximal
  ill-formed subpart) and its agreement with plain decoding on valid UTF-8.
- `src/text.rs`: the calls into std's UTF-8 conversions, whose contracts are
  trusted, and UTF-8 facts about ASCII.
- `src/laws.rs`: idempotence of encoding, round trips (decode after encode,
  form decode after form encode, streaming decode after streaming encode) and
  normalization laws.

`app/` holds the standard-library trait impls (`Display`, `Error`,
`Iterator`, list-style `Debug`) on wrappers and copies of the library's
types.
