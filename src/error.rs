//! The errors of compression and of range reads.

use vstd::prelude::*;

verus! {

/// Why a compression or a range read failed.
#[derive(Debug)]
pub enum Error {
    /// The artifact is too short for what its header or table claims, a frame
    /// does not decode to the length its position implies, or the range asked
    /// for lies outside the input.
    UnexpectedEof,
    /// The artifact would not fit the format: an offset past `u32::MAX`, or a
    /// table longer than memory can index.
    TooLarge,
    /// zstd failed to compress or to decode a frame.
    Codec(std::io::Error),
}

} // verus!
