//! The block codec: zstd, reached through a few trusted items. Frames are
//! written without checksum, content size, dictionary id or magic bytes, since
//! the container's own table already says where each frame lies and how long
//! its input is.

use vstd::prelude::*;

verus! {

#[verifier::external_type_specification]
#[verifier::external_body]
pub struct ExIoError(std::io::Error);

/// Whether the linked zstd accepts `level` as a compression level.
pub uninterp spec fn zstd_level_supported(level: int) -> bool;

/// The zstd frame that compressing `data` at `level` gives.
pub uninterp spec fn zstd_frame(level: int, data: Seq<u8>) -> Seq<u8>;

/// Whether zstd compresses `data` at `level` (it fails only when it runs out
/// of memory).
pub uninterp spec fn zstd_compress_ok(level: int, data: Seq<u8>) -> bool;

/// The bytes that the zstd frame `frame` decodes to.
pub uninterp spec fn zstd_frame_content(frame: Seq<u8>) -> Seq<u8>;

/// Whether `frame` is a well-formed zstd frame that decodes.
pub uninterp spec fn zstd_frame_decodes(frame: Seq<u8>) -> bool;

/// Relies on `zstd::compression_level_range`: the levels that the linked zstd
/// accepts, a fixed range for a given build of the library.
#[verifier::external_body]
pub(crate) fn level_supported(level: i32) -> (r: bool)
    ensures
        r == zstd_level_supported(level as int),
{
    zstd::compression_level_range().contains(&level)
}

/// Relies on `zstd::bulk::Compressor::compress`, with a compressor made by
/// `Compressor::new(level)` and the four `include_*` switches turned off: the
/// frame depends on the level and the data alone, and zstd is lossless, so the
/// frame decodes back to `data`. Compressing in one pass into a buffer of
/// `compress_bound` bytes depends on the arguments alone.
#[verifier::external_body]
pub(crate) fn compress_frame(level: i32, data: &[u8]) -> (r: Result<Vec<u8>, std::io::Error>)
    ensures
        r is Ok <==> zstd_compress_ok(level as int, data@),
        r matches Ok(f) ==> f@ == zstd_frame(level as int, data@) && zstd_frame_decodes(f@)
            && zstd_frame_content(f@) == data@,
{
    let mut compressor = zstd::bulk::Compressor::new(level)?;
    compressor.include_checksum(false)?;
    compressor.include_contentsize(false)?;
    compressor.include_dictid(false)?;
    compressor.include_magicbytes(false)?;
    compressor.compress(data)
}

/// Relies on `zstd::bulk::Decompressor::decompress_to_buffer`, with a decompressor made by
/// `Decompressor::new()` and `include_magicbytes(false)`: what a frame decodes
/// to depends on the frame alone; it is written to `dst` from its start, within
/// the `capacity` bytes reserved for it. Decoding in one pass has no window
/// limit, so a well-formed frame whose content fits decodes.
#[verifier::external_body]
pub(crate) fn decompress_frame(frame: &[u8], dst: &mut Vec<u8>, capacity: usize) -> (r: Result<usize, std::io::Error>)
    requires
        old(dst)@.len() == 0,
    ensures
        r matches Ok(n) ==> zstd_frame_decodes(frame@) && final(dst)@ == zstd_frame_content(frame@)
            && n == final(dst)@.len(),
        zstd_frame_decodes(frame@) && zstd_frame_content(frame@).len() <= capacity ==> r is Ok,
{
    let mut decompressor = zstd::bulk::Decompressor::new()?;
    decompressor.include_magicbytes(false)?;
    dst.reserve(capacity);
    decompressor.decompress_to_buffer(frame, dst)
}

} // verus!
