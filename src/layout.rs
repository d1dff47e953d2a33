//! The artifact's byte layout: little-endian 32-bit words, frame arithmetic,
//! and the byte sequence that a compression run produces.

use vstd::prelude::*;

use crate::codec::{zstd_compress_ok, zstd_frame, zstd_frame_content, zstd_frame_decodes};

verus! {

/// Bytes taken by the header: `frame_size` and `input_len`, one word each.
pub const HEADER_LEN: usize = 8;

/// Bytes taken by one word of the header or of the offset table.
pub const WORD_LEN: usize = 4;

/// The number of a little-endian 32-bit word held in four bytes.
pub open spec fn u32_from_le(b: Seq<u8>) -> int {
    b[0] as int + b[1] as int * 256 + b[2] as int * 65536 + b[3] as int * 16777216
}

/// The four little-endian bytes of a 32-bit word.
pub open spec fn le_bytes(v: u32) -> Seq<u8> {
    seq![
        (v % 256) as u8,
        ((v / 256) % 256) as u8,
        ((v / 65536) % 256) as u8,
        (v / 16777216) as u8,
    ]
}

/// Decoding the bytes of a word gives the word back.
pub proof fn lemma_le_round_trip(v: u32)
    ensures
        le_bytes(v).len() == 4,
        u32_from_le(le_bytes(v)) == v,
{
    let b = le_bytes(v);
    assert(b[0] as int == v % 256);
    assert(b[1] as int == (v / 256) % 256);
    assert(b[2] as int == (v / 65536) % 256);
    assert(b[3] as int == v / 16777216);
    assert(u32_from_le(b) == v) by (nonlinear_arith)
        requires
            b[0] as int == v % 256,
            b[1] as int == (v / 256) % 256,
            b[2] as int == (v / 65536) % 256,
            b[3] as int == v / 16777216,
            v < 0x1_0000_0000,
    ;
}

/// Writes `v` as four little-endian bytes.
pub(crate) fn encode_u32_le(v: u32) -> (r: [u8; 4])
    ensures
        r@ == le_bytes(v),
{
    let r = [(v % 256) as u8, ((v / 256) % 256) as u8, ((v / 65536) % 256) as u8, (v / 16777216) as u8];
    assert(r@ =~= le_bytes(v));
    r
}

/// Reads the little-endian word at byte `at` of `bytes`.
pub(crate) fn decode_u32_le(bytes: &[u8], at: usize) -> (r: u32)
    requires
        at + 4 <= bytes@.len(),
    ensures
        r as int == u32_from_le(bytes@.subrange(at as int, at + 4)),
{
    let b0 = bytes[at] as u32;
    let b1 = bytes[at + 1] as u32;
    let b2 = bytes[at + 2] as u32;
    let b3 = bytes[at + 3] as u32;
    b0 + b1 * 256 + b2 * 65536 + b3 * 16777216
}

/// `ceil(len / frame_size)`: the number of frames of an input of `len` bytes.
pub open spec fn frame_count(len: int, frame_size: int) -> int {
    (len + frame_size - 1) / frame_size
}

/// The first input byte of frame `i`.
pub open spec fn frame_start(i: int, frame_size: int) -> int {
    i * frame_size
}

/// One past the last input byte of frame `i`.
pub open spec fn frame_end(i: int, frame_size: int, len: int) -> int {
    if (i + 1) * frame_size < len { (i + 1) * frame_size } else { len }
}

/// The input bytes that frame `i` covers.
pub open spec fn chunk(input: Seq<u8>, frame_size: int, i: int) -> Seq<u8> {
    input.subrange(frame_start(i, frame_size), frame_end(i, frame_size, input.len() as int))
}

/// The frames `[first, last)` that a read of the bytes `[start, end)` decodes:
/// the frame holding `start` up to the frame holding the byte before `end`.
pub open spec fn first_touched(start: int, frame_size: int) -> int {
    start / frame_size
}

pub open spec fn last_touched(end: int, frame_size: int) -> int {
    (end + frame_size - 1) / frame_size
}

/// The compressed frames `0..k` of `input`, back to back.
pub open spec fn blob(level: int, input: Seq<u8>, frame_size: int, k: int) -> Seq<u8>
    decreases k,
{
    if k <= 0 {
        Seq::empty()
    } else {
        blob(level, input, frame_size, k - 1) + zstd_frame(level, chunk(input, frame_size, k - 1))
    }
}

/// The table words for frames `1..=k`: the cumulative compressed length after
/// each frame (offset 0 is implied).
pub open spec fn table(level: int, input: Seq<u8>, frame_size: int, k: int) -> Seq<u8>
    decreases k,
{
    if k <= 0 {
        Seq::empty()
    } else {
        table(level, input, frame_size, k - 1) + le_bytes(
            blob(level, input, frame_size, k).len() as u32,
        )
    }
}

/// The artifact for `input`: header, offset table, then the frames.
pub open spec fn artifact(level: int, input: Seq<u8>, frame_size: int) -> Seq<u8> {
    let n = frame_count(input.len() as int, frame_size);
    le_bytes(frame_size as u32) + le_bytes(input.len() as u32) + table(level, input, frame_size, n)
        + blob(level, input, frame_size, n)
}

/// Every frame of `input` decodes back to the input bytes it covers.
pub open spec fn frames_decode(level: int, input: Seq<u8>, frame_size: int) -> bool {
    forall|i: int|
        0 <= i < frame_count(input.len() as int, frame_size) ==> #[trigger] zstd_frame_content(
            zstd_frame(level, chunk(input, frame_size, i)),
        ) == chunk(input, frame_size, i) && zstd_frame_decodes(
            zstd_frame(level, chunk(input, frame_size, i)),
        )
}

/// zstd compresses every frame of `input`.
pub open spec fn frames_compress(level: int, input: Seq<u8>, frame_size: int) -> bool {
    forall|i: int|
        0 <= i < frame_count(input.len() as int, frame_size) ==> #[trigger] zstd_compress_ok(
            level,
            chunk(input, frame_size, i),
        )
}

/// The compressed blob only grows as frames are added.
pub proof fn lemma_blob_grows(level: int, input: Seq<u8>, frame_size: int, j: int, k: int)
    requires
        0 <= j <= k,
    ensures
        blob(level, input, frame_size, j).len() <= blob(level, input, frame_size, k).len(),
    decreases k - j,
{
    if j < k {
        lemma_blob_grows(level, input, frame_size, j, k - 1);
    }
}

/// A frame index lies below the frame count exactly when the frame starts
/// inside the input.
pub proof fn lemma_frame_count(len: int, frame_size: int, i: int)
    requires
        0 <= len,
        0 < frame_size,
        0 <= i,
    ensures
        i < frame_count(len, frame_size) <==> i * frame_size < len,
{
    let n = frame_count(len, frame_size);
    assert(n * frame_size >= len && (n == 0 || (n - 1) * frame_size < len)) by (nonlinear_arith)
        requires
            n == (len + frame_size - 1) / frame_size,
            0 <= len,
            0 < frame_size,
    ;
    if i < n {
        assert(i * frame_size <= (n - 1) * frame_size) by (nonlinear_arith)
            requires
                i <= n - 1,
                0 < frame_size,
        ;
    } else {
        assert(i * frame_size >= n * frame_size) by (nonlinear_arith)
            requires
                i >= n,
                0 < frame_size,
        ;
    }
}

/// The 32-bit little-endian word at byte `at` of `a`.
pub open spec fn word_at(a: Seq<u8>, at: int) -> int {
    u32_from_le(a.subrange(at, at + 4))
}

/// The frame size that an artifact's header records.
pub open spec fn stored_frame_size(a: Seq<u8>) -> int {
    word_at(a, 0)
}

/// The input length that an artifact's header records.
pub open spec fn stored_input_len(a: Seq<u8>) -> int {
    word_at(a, 4)
}

/// The number of frames that an artifact's header implies.
pub open spec fn stored_frame_count(a: Seq<u8>) -> int {
    frame_count(stored_input_len(a), stored_frame_size(a))
}

/// Where an artifact's compressed frames begin: after the header and table.
pub open spec fn blob_start(a: Seq<u8>) -> int {
    HEADER_LEN + WORD_LEN * stored_frame_count(a)
}

/// An artifact can be opened: it holds a header with a non-zero frame size,
/// and the whole table that the header implies.
pub open spec fn opens(a: Seq<u8>) -> bool {
    &&& a.len() >= HEADER_LEN
    &&& stored_frame_size(a) >= 1
    &&& a.len() >= blob_start(a)
}

/// Offset `i` of the table: 0 for `i == 0`, else the stored word `i`.
pub open spec fn offset(a: Seq<u8>, i: int) -> int {
    if i == 0 {
        0
    } else {
        word_at(a, HEADER_LEN + WORD_LEN * (i - 1))
    }
}

/// The compressed bytes of frame `i`.
pub open spec fn frame_bytes(a: Seq<u8>, i: int) -> Seq<u8> {
    a.subrange(blob_start(a) + offset(a, i), blob_start(a) + offset(a, i + 1))
}

/// Frame `i` lies inside the artifact, is a well-formed zstd frame, and
/// decodes to as many bytes as its place in the input says.
pub open spec fn frame_sound(a: Seq<u8>, i: int) -> bool {
    let fs = stored_frame_size(a);
    &&& offset(a, i) <= offset(a, i + 1)
    &&& blob_start(a) + offset(a, i + 1) <= a.len()
    &&& zstd_frame_decodes(frame_bytes(a, i))
    &&& zstd_frame_content(frame_bytes(a, i)).len() == frame_end(i, fs, stored_input_len(a))
        - frame_start(i, fs)
}

/// Every frame that a read of `[start, end)` decodes is sound (an empty read
/// decodes none).
pub open spec fn range_readable(a: Seq<u8>, start: int, end: int) -> bool {
    let fs = stored_frame_size(a);
    start < end ==> forall|i: int|
        first_touched(start, fs) <= i < last_touched(end, fs) ==> #[trigger] frame_sound(a, i)
}

/// Byte `k` of the input, as the artifact holds it.
pub open spec fn stored_byte(a: Seq<u8>, k: int) -> u8 {
    let fs = stored_frame_size(a);
    zstd_frame_content(frame_bytes(a, k / fs))[k % fs]
}

/// The input bytes `[start, end)` as the artifact holds them.
pub open spec fn range_bytes(a: Seq<u8>, start: int, end: int) -> Seq<u8> {
    Seq::new((end - start) as nat, |j: int| stored_byte(a, start + j))
}

/// The conditions under which compression succeeds: a valid frame size, an
/// input of at most `u32::MAX` bytes, and frames that together fit 32-bit
/// offsets.
pub open spec fn fits(level: int, input: Seq<u8>, frame_size: int) -> bool {
    &&& 1 <= frame_size <= u32::MAX
    &&& input.len() <= u32::MAX
    &&& blob(level, input, frame_size, frame_count(input.len() as int, frame_size)).len()
        <= u32::MAX
}

/// Compression of `input` succeeds: the table can be indexed, the frames fit
/// 32-bit offsets, and zstd compresses every frame.
pub open spec fn compress_succeeds(level: int, input: Seq<u8>, frame_size: int) -> bool {
    &&& HEADER_LEN + WORD_LEN * frame_count(input.len() as int, frame_size) <= usize::MAX
    &&& fits(level, input, frame_size)
    &&& frames_compress(level, input, frame_size)
}

/// The outcome of compressing `input`: success exactly when
/// `compress_succeeds` holds, with the artifact as its bytes.
pub open spec fn compress_outcome(level: int, input: Seq<u8>, frame_size: int, r: Result<Seq<u8>, ()>) -> bool {
    &&& r is Ok <==> compress_succeeds(level, input, frame_size)
    &&& r matches Ok(a) ==> a == artifact(level, input, frame_size)
}

} // verus!
