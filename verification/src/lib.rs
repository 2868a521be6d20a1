//! Radial Response Code (RRC): a polar two-dimensional optical code.
//!
//! This crate holds the verified core of the symbology: GF(2^8) arithmetic,
//! the Reed-Solomon codec, the BCH-protected format word, bitstream
//! assembly and parsing, ring geometry, radial masks, colors, the integer
//! parts of the encoding and decoding pipelines, and the raster encodings
//! of rendered pixels.

pub mod berlekamp;
pub mod bitstream;
pub mod decoder;
pub mod distance;
pub mod ecc;
pub mod encoder;
pub mod errata;
pub mod error;
pub mod errors;
pub mod geometry;
pub mod gf;
pub mod interleave;
pub mod mask;
pub mod poly;
pub mod render;

pub use bitstream::Mode;
pub use decoder::{decode_candidate, ring_format_words, DecodeOptions, DecodeResult};
pub use encoder::{encode, EncodeOptions, RrcSymbol};
pub use error::RrcError;
pub use geometry::{
    find_fitting_version, version_info, EccLevel, VersionInfo, BASE_SECTORS, BULLSEYE_ZONES,
};
pub use render::{Color, SectorStyle};
