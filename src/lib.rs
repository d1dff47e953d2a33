//! A random-access compressed container: the input is cut into fixed-size
//! frames, each compressed on its own with zstd, behind a small header and a
//! table of cumulative frame offsets, so that any byte range can be read back
//! by decoding only the frames it overlaps.
//!
//! Layout, in little-endian 32-bit words: `frame_size`, `input_len`, then the
//! cumulative compressed length after each frame (the offset 0 of the first
//! frame is implied), then the compressed frames back to back.

pub mod codec;
mod compressor;
mod decompressor;
mod error;
pub mod layout;
pub mod proofs;

pub use compressor::{Compressor, DEFAULT_FRAME_SIZE};
pub use decompressor::{
    is_codec, is_eof, range_valid, read_bytes, read_result, ByteRange, Decompressor,
};
pub use error::Error;
