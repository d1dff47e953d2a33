//! Building an artifact: frame the input, compress each frame on its own, and
//! record the cumulative compressed length after each frame.

use vstd::prelude::*;

use crate::codec::{compress_frame, level_supported, zstd_level_supported};
use crate::error::Error;
use crate::layout::{
    compress_outcome, fits,
    artifact, blob, chunk, encode_u32_le, frame_count, frames_compress, frames_decode, le_bytes, lemma_blob_grows,
    lemma_frame_count, table, HEADER_LEN, WORD_LEN,
};
use crate::codec::{zstd_compress_ok, zstd_frame, zstd_frame_content, zstd_frame_decodes};

verus! {

/// The frame size that `Compressor::new` starts with: 32 KiB.
pub const DEFAULT_FRAME_SIZE: usize = 32768;

/// The options of one compression: the zstd level and the frame size.
pub struct Compressor {
    level: i32,
    frame_size: usize,
}

impl Compressor {
    /// The zstd level that frames are compressed at.
    pub closed spec fn level_spec(&self) -> int {
        self.level as int
    }

    /// The number of input bytes in every frame but the last.
    pub closed spec fn frame_size_spec(&self) -> int {
        self.frame_size as int
    }

    /// The frame size fits the header's 32-bit word and is at least one byte.
    pub closed spec fn wf(&self) -> bool {
        1 <= self.frame_size <= u32::MAX
    }

    /// Options with zstd's default level (0) and a 32 KiB frame size.
    pub fn new() -> (r: Self)
        ensures
            r.wf(),
            r.level_spec() == 0,
            r.frame_size_spec() == DEFAULT_FRAME_SIZE,
    {
        Compressor { level: 0, frame_size: DEFAULT_FRAME_SIZE }
    }

    /// Sets the zstd level; the level must be one that zstd accepts.
    pub fn level(self, level: i32) -> (r: Self)
        requires
            zstd_level_supported(level as int),
        ensures
            r.level_spec() == level,
            r.frame_size_spec() == self.frame_size_spec(),
    {
        Compressor { level, ..self }
    }

    /// Sets the zstd level if zstd accepts it, and returns `None` otherwise.
    pub fn try_level(self, level: i32) -> (r: Option<Self>)
        ensures
            r is Some <==> zstd_level_supported(level as int),
            r matches Some(c) ==> c.level_spec() == level && c.frame_size_spec()
                == self.frame_size_spec(),
    {
        if level_supported(level) {
            Some(self.level(level))
        } else {
            None
        }
    }

    /// Sets the frame size, which must lie in `1..=u32::MAX`.
    pub fn frame_size(self, frame_size: usize) -> (r: Self)
        requires
            1 <= frame_size <= u32::MAX,
        ensures
            r.wf(),
            r.level_spec() == self.level_spec(),
            r.frame_size_spec() == frame_size,
    {
        Compressor { frame_size, ..self }
    }

    /// Compresses `input` into an artifact. It succeeds exactly when
    /// `compress_succeeds` holds, and the artifact is then exactly
    /// `artifact(level, input, frame_size)`, with each frame decoding back to
    /// its input bytes. `TooLarge` comes exactly
    /// when the table cannot be indexed or the frames together pass
    /// `u32::MAX` bytes; a `Codec` error comes only where zstd fails on a
    /// frame. Otherwise compression succeeds.
    pub fn compress(self, input: &[u8]) -> (r: Result<Vec<u8>, Error>)
        requires
            self.wf(),
            input@.len() <= u32::MAX,
        ensures
            compress_outcome(
                self.level_spec(),
                input@,
                self.frame_size_spec(),
                match r {
                    Ok(a) => Ok(a@),
                    Err(_) => Err(()),
                },
            ),
            ({
                let level = self.level_spec();
                let fs = self.frame_size_spec();
                let n = frame_count(input@.len() as int, fs);
                match r {
                    Ok(a) => fits(level, input@, fs) && frames_decode(level, input@, fs),
                    Err(Error::TooLarge) => HEADER_LEN + WORD_LEN * n > usize::MAX || blob(
                        level,
                        input@,
                        fs,
                        n,
                    ).len() > u32::MAX,
                    Err(Error::UnexpectedEof) => false,
                    Err(Error::Codec(_)) => !frames_compress(level, input@, fs),
                }
            }),
    {
        let len = input.len();
        let fs = self.frame_size;
        let ghost level = self.level as int;
        let num_frames: usize = if len == 0 { 0 } else { (len - 1) / fs + 1 };
        proof {
            assert(num_frames == frame_count(len as int, fs as int)) by (nonlinear_arith)
                requires
                    num_frames == (if len == 0 { 0 } else { (len - 1) / fs as int + 1 }),
                    1 <= fs,
                    0 <= len,
            ;
        }
        if num_frames > (usize::MAX - HEADER_LEN) / WORD_LEN {
            return Err(Error::TooLarge);
        }
        let table_end = HEADER_LEN + WORD_LEN * num_frames;
        let mut buf: Vec<u8> = vec![0u8; table_end];
        set_word(&mut buf, 0, fs as u32);
        set_word(&mut buf, 1, len as u32);
        let ghost header = le_bytes(fs as u32) + le_bytes(len as u32);
        assert(buf@.subrange(0, 8) =~= header);

        let mut total: u64 = 0;
        let mut from: usize = 0;
        let mut i: usize = 0;
        while i < num_frames
            invariant
                num_frames == frame_count(len as int, fs as int),
                table_end == HEADER_LEN + WORD_LEN * num_frames,
                len == input@.len(),
                len <= u32::MAX,
                1 <= fs <= u32::MAX,
                fs == self.frame_size,
                level == self.level as int,
                i <= num_frames,
                i < num_frames ==> from == i * fs && from < len,
                total == blob(level, input@, fs as int, i as int).len(),
                total <= u32::MAX,
                buf@.len() == table_end + total,
                buf@.subrange(0, 8) == header,
                buf@.subrange(8, 8 + 4 * i) == table(level, input@, fs as int, i as int),
                buf@.subrange(table_end as int, buf@.len() as int) == blob(
                    level,
                    input@,
                    fs as int,
                    i as int,
                ),
                forall|j: int|
                    0 <= j < i ==> #[trigger] zstd_frame_content(
                        zstd_frame(level, chunk(input@, fs as int, j)),
                    ) == chunk(input@, fs as int, j),
                forall|j: int|
                    0 <= j < i ==> #[trigger] zstd_compress_ok(level, chunk(input@, fs as int, j)),
                forall|j: int|
                    0 <= j < i ==> #[trigger] zstd_frame_decodes(
                        zstd_frame(level, chunk(input@, fs as int, j)),
                    ),
            decreases num_frames - i,
        {
            let to: usize = if len - from > fs { from + fs } else { len };
            let source = slice_range(input, from, to);
            assert(source@ == chunk(input@, fs as int, i as int)) by {
                assert(from + fs == (i + 1) * fs) by (nonlinear_arith)
                    requires from == i * fs;
            }
            let frame = match compress_frame(self.level, source) {
                Ok(f) => f,
                Err(e) => {
                    assert(!zstd_compress_ok(level, chunk(input@, fs as int, i as int)));
                    return Err(Error::Codec(e));
                },
            };
            let ghost prev = buf@;
            assert(zstd_frame_decodes(zstd_frame(level, chunk(input@, fs as int, i as int))));
            assert(blob(level, input@, fs as int, i + 1) == blob(level, input@, fs as int, i as int)
                + frame@);
            if frame.len() as u64 > u32::MAX as u64 - total {
                proof {
                    lemma_blob_grows(level, input@, fs as int, i + 1, num_frames as int);
                }
                return Err(Error::TooLarge);
            }
            append_bytes(&mut buf, frame.as_slice());
            total = total + frame.len() as u64;
            assert(buf@.subrange(table_end as int, buf@.len() as int) =~= blob(
                level,
                input@,
                fs as int,
                i + 1,
            )) by {
                assert(prev.subrange(table_end as int, prev.len() as int) == blob(
                    level,
                    input@,
                    fs as int,
                    i as int,
                ));
            }
            let ghost mid = buf@;
            set_word(&mut buf, i + 2, total as u32);
            assert(buf@.subrange(0, 8) =~= mid.subrange(0, 8));
            assert(buf@.subrange(8, 8 + 4 * (i + 1)) =~= table(level, input@, fs as int, i + 1))
                by {
                assert(mid.subrange(8, 8 + 4 * i) == table(level, input@, fs as int, i as int));
                assert(buf@.subrange(8, 8 + 4 * i) =~= mid.subrange(8, 8 + 4 * i));
            }
            assert(buf@.subrange(table_end as int, buf@.len() as int) =~= mid.subrange(
                table_end as int,
                mid.len() as int,
            ));
            let ghost prev_from = from;
            i = i + 1;
            if i < num_frames {
                proof {
                    lemma_frame_count(len as int, fs as int, i as int);
                    assert(prev_from + fs == i * fs) by (nonlinear_arith)
                        requires prev_from == (i - 1) * fs;
                }
                from = from + fs;
            }
        }
        assert(buf@ =~= artifact(level, input@, fs as int)) by {
            assert(buf@ =~= buf@.subrange(0, 8) + buf@.subrange(8, table_end as int)
                + buf@.subrange(table_end as int, buf@.len() as int));
        }
        Ok(buf)
    }
}

impl Default for Compressor {
    /// The same options as `Compressor::new`.
    fn default() -> (r: Self)
        ensures
            r.wf(),
            r.level_spec() == 0,
            r.frame_size_spec() == DEFAULT_FRAME_SIZE,
    {
        Compressor::new()
    }
}

/// Writes word `slot` (bytes `4 * slot .. 4 * slot + 4`) of `buf` as a
/// little-endian 32-bit number, leaving the other bytes as they were.
fn set_word(buf: &mut Vec<u8>, slot: usize, val: u32)
    requires
        4 * slot + 4 <= old(buf)@.len(),
    ensures
        final(buf)@.len() == old(buf)@.len(),
        final(buf)@.subrange(4 * slot as int, 4 * slot + 4) == le_bytes(val),
        forall|j: int|
            0 <= j < old(buf)@.len() && !(4 * slot <= j < 4 * slot + 4) ==> #[trigger] final(buf)@[j]
                == old(buf)@[j],
{
    let bytes = encode_u32_le(val);
    assert(4 * slot + 4 <= buf.len());
    let from = 4 * slot;
    buf.set(from, bytes[0]);
    buf.set(from + 1, bytes[1]);
    buf.set(from + 2, bytes[2]);
    buf.set(from + 3, bytes[3]);
    assert(buf@.subrange(4 * slot as int, 4 * slot + 4) =~= le_bytes(val));
}

/// Appends the bytes of `src` to `dst`.
pub(crate) fn append_bytes(dst: &mut Vec<u8>, src: &[u8])
    ensures
        final(dst)@ == old(dst)@ + src@,
{
    let mut k: usize = 0;
    while k < src.len()
        invariant
            k <= src@.len(),
            dst@ == old(dst)@ + src@.subrange(0, k as int),
        decreases src@.len() - k,
    {
        dst.push(src[k]);
        k = k + 1;
        assert(dst@ =~= old(dst)@ + src@.subrange(0, k as int));
    }
    assert(src@.subrange(0, src@.len() as int) =~= src@);
}

/// The bytes `from..to` of `src`.
pub(crate) fn slice_range(src: &[u8], from: usize, to: usize) -> (r: &[u8])
    requires
        from <= to <= src@.len(),
    ensures
        r@ == src@.subrange(from as int, to as int),
{
    &src[from..to]
}

} // verus!
