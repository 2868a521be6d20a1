//! The error type of the RRC library.

use vstd::prelude::*;

verus! {

/// Error type returned by RRC encoding, decoding, and rendering operations.
#[derive(Debug, Clone, PartialEq, Eq)]
pub enum RrcError {
    /// The input data exceeds the maximum capacity of the chosen or largest version.
    DataTooLarge { needed: usize, capacity: usize },
    /// The specified version is invalid (must be between 1 and 40).
    InvalidVersion(u8),
    /// The specified ECC level is invalid.
    InvalidEccLevel(String),
    /// The input string contains characters not supported by the selected mode.
    InvalidCharacter(char),
    /// Unrecognized mode indicator in the bitstream.
    InvalidMode(u8),
    /// The bitstream length is invalid or incomplete.
    TruncatedBitstream,
    /// Format word could not be decoded or was corrupted beyond BCH recovery.
    FormatWordCorrupted,
    /// Reed-Solomon error correction failed because errors exceeded recovery capacity.
    EccUncorrectable,
    /// No RRC bullseye finder pattern was detected in the image.
    NotFound,
    /// The input image buffer is too small or dimensions are invalid.
    ImageTooSmall { width: u32, height: u32 },
    /// General decoding or sampling failure.
    DecodingFailed(String),
    /// An error occurred during image rasterization or encoding.
    RenderError(String),
}

} // verus!
