# rrc-core

A verified library for the Radial Response Code (RRC): circular 2D symbols whose data
sectors sit on concentric rings around a bullseye. The library is written in
Verus, and Verus proves the contracts of its functions, with one exception:
the few `#[verifier::external_body]` functions in `src/decoder.rs` (UTF-8
validation) and `src/render.rs` (PNG and JPEG encoding through the `image`
crate, and the text of its errors) make the outside calls, and their
contracts are trusted, not proved. Each of them says in its doc comment
what it claims of the call it makes.

## Layout

- `src/gf.rs`, `src/poly.rs`: arithmetic in GF(2^8) and polynomials over it.
- `src/ecc.rs`, `src/berlekamp.rs`, `src/errors.rs`, `src/errata.rs`,
  `src/distance.rs`, `src/interleave.rs`: Reed-Solomon encoding and decoding
  (Berlekamp-Massey, Chien search, Forney), interleaved blocks, erasures,
  and the laws that the decoder corrects what the code's distance allows.
- `src/bitstream.rs`: encoding modes, the BCH-protected format word, bit
  buffers and the assembly and parsing of data codewords.
- `src/geometry.rs`, `src/mask.rs`: ring and sector layout, radial masks.
- `src/encoder.rs`, `src/decoder.rs`: symbol construction and reading a
  symbol back from its sector grid.
- `src/render.rs`: colors, sector styles, PNG and JPEG encoding of pixels.
- `app/`: the command-line tool, image scanning and rendering, and the
  language bindings, which call into the library.
- `tests/`: the test suite.
