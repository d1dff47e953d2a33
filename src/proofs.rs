//! What holds of the artifacts that compression builds: they open, their
//! table reads back the offsets that were written, every range of the input
//! reads back unchanged, and the read of a range depends only on the frames
//! it touches.

use vstd::prelude::*;

use vstd::arithmetic::div_mod::{lemma_fundamental_div_mod, lemma_fundamental_div_mod_converse};

use crate::codec::{zstd_frame, zstd_frame_content};
use crate::decompressor::range_valid;
use crate::layout::{
    compress_outcome, fits,    artifact, blob, blob_start, chunk, first_touched, frame_bytes, frame_count, frame_end,
    frame_sound, frame_start, frames_decode, last_touched, le_bytes, lemma_blob_grows,
    lemma_frame_count, lemma_le_round_trip, offset, opens, range_bytes, range_readable,
    stored_byte, stored_frame_count, stored_frame_size, stored_input_len, table, word_at,
};

verus! {

proof fn lemma_table_len(level: int, input: Seq<u8>, frame_size: int, k: int)
    requires
        0 <= k,
    ensures
        table(level, input, frame_size, k).len() == 4 * k,
    decreases k,
{
    if k > 0 {
        lemma_table_len(level, input, frame_size, k - 1);
    }
}

proof fn lemma_table_word(level: int, input: Seq<u8>, frame_size: int, k: int, i: int)
    requires
        1 <= i <= k,
    ensures
        table(level, input, frame_size, k).subrange(4 * (i - 1), 4 * i) == le_bytes(
            blob(level, input, frame_size, i).len() as u32,
        ),
    decreases k,
{
    lemma_table_len(level, input, frame_size, k - 1);
    let t = table(level, input, frame_size, k);
    if i < k {
        lemma_table_word(level, input, frame_size, k - 1, i);
        assert(t.subrange(4 * (i - 1), 4 * i) =~= table(level, input, frame_size, k - 1).subrange(
            4 * (i - 1),
            4 * i,
        ));
    } else {
        assert(t.subrange(4 * (i - 1), 4 * i) =~= le_bytes(
            blob(level, input, frame_size, i).len() as u32,
        ));
    }
}

proof fn lemma_blob_prefix(level: int, input: Seq<u8>, frame_size: int, i: int, k: int)
    requires
        0 <= i <= k,
    ensures
        blob(level, input, frame_size, k).subrange(0, blob(level, input, frame_size, i).len() as int)
            == blob(level, input, frame_size, i),
    decreases k - i,
{
    lemma_blob_grows(level, input, frame_size, i, k);
    if i < k {
        lemma_blob_prefix(level, input, frame_size, i, k - 1);
        lemma_blob_grows(level, input, frame_size, i, k - 1);
        assert(blob(level, input, frame_size, k).subrange(
            0,
            blob(level, input, frame_size, i).len() as int,
        ) =~= blob(level, input, frame_size, k - 1).subrange(
            0,
            blob(level, input, frame_size, i).len() as int,
        ));
    } else {
        assert(blob(level, input, frame_size, k).subrange(
            0,
            blob(level, input, frame_size, k).len() as int,
        ) =~= blob(level, input, frame_size, k));
    }
}

/// An artifact that compression built opens, its header records the frame
/// size and input length, its table gives back each frame's offset, and
/// frame `i` holds the compressed chunk `i`.
pub proof fn lemma_artifact_reads_back(level: int, input: Seq<u8>, frame_size: int)
    requires
        fits(level, input, frame_size),
    ensures
        ({
            let a = artifact(level, input, frame_size);
            let n = frame_count(input.len() as int, frame_size);
            &&& opens(a)
            &&& stored_frame_size(a) == frame_size
            &&& stored_input_len(a) == input.len()
            &&& stored_frame_count(a) == n
            &&& blob_start(a) == 8 + 4 * n
            &&& a.len() == blob_start(a) + blob(level, input, frame_size, n).len()
            &&& forall|i: int|
                0 <= i <= n ==> #[trigger] offset(a, i) == blob(level, input, frame_size, i).len()
            &&& forall|i: int|
                0 <= i < n ==> #[trigger] frame_bytes(a, i) == zstd_frame(
                    level,
                    chunk(input, frame_size, i),
                )
        }),
{
    let a = artifact(level, input, frame_size);
    let len = input.len() as int;
    let n = frame_count(len, frame_size);
    assert(n >= 0) by (nonlinear_arith)
        requires n == (len + frame_size - 1) / frame_size, len >= 0, frame_size >= 1;
    let t = table(level, input, frame_size, n);
    let b = blob(level, input, frame_size, n);
    lemma_table_len(level, input, frame_size, n);
    lemma_le_round_trip(frame_size as u32);
    lemma_le_round_trip(len as u32);
    assert(a.subrange(0, 4) =~= le_bytes(frame_size as u32));
    assert(a.subrange(4, 8) =~= le_bytes(len as u32));
    assert forall|i: int| 0 <= i <= n implies #[trigger] offset(a, i) == blob(
        level,
        input,
        frame_size,
        i,
    ).len() by {
        if i > 0 {
            lemma_table_word(level, input, frame_size, n, i);
            lemma_blob_grows(level, input, frame_size, i, n);
            let v = blob(level, input, frame_size, i).len() as u32;
            lemma_le_round_trip(v);
            assert(a.subrange(8 + 4 * (i - 1), 8 + 4 * (i - 1) + 4) =~= t.subrange(
                4 * (i - 1),
                4 * i,
            ));
        }
    }
    assert forall|i: int| 0 <= i < n implies #[trigger] frame_bytes(a, i) == zstd_frame(
        level,
        chunk(input, frame_size, i),
    ) by {
        let lo = blob(level, input, frame_size, i).len() as int;
        let hi = blob(level, input, frame_size, i + 1).len() as int;
        assert(offset(a, i) == lo);
        assert(offset(a, i + 1) == hi);
        lemma_blob_prefix(level, input, frame_size, i + 1, n);
        lemma_blob_grows(level, input, frame_size, i + 1, n);
        assert(frame_bytes(a, i) =~= blob(level, input, frame_size, i + 1).subrange(lo, hi));
        assert(blob(level, input, frame_size, i + 1).subrange(lo, hi) =~= zstd_frame(
            level,
            chunk(input, frame_size, i),
        ));
    }
}

/// Frame `i` of an artifact that compression built is sound.
proof fn lemma_frame_sound(level: int, input: Seq<u8>, frame_size: int, i: int)
    requires
        fits(level, input, frame_size),
        frames_decode(level, input, frame_size),
        0 <= i < frame_count(input.len() as int, frame_size),
    ensures
        frame_sound(artifact(level, input, frame_size), i),
{
    let a = artifact(level, input, frame_size);
    let len = input.len() as int;
    let n = frame_count(len, frame_size);
    lemma_artifact_reads_back(level, input, frame_size);
    lemma_blob_grows(level, input, frame_size, i, i + 1);
    lemma_blob_grows(level, input, frame_size, i + 1, n);
    lemma_frame_count(len, frame_size, i);
    assert(0 <= i * frame_size && (i + 1) * frame_size == i * frame_size + frame_size)
        by (nonlinear_arith)
        requires 0 <= i, 0 < frame_size;
    assert(offset(a, i) == blob(level, input, frame_size, i).len());
    assert(offset(a, i + 1) == blob(level, input, frame_size, i + 1).len());
    assert(frame_bytes(a, i) == zstd_frame(level, chunk(input, frame_size, i)));
    assert(zstd_frame_content(zstd_frame(level, chunk(input, frame_size, i))) == chunk(
        input,
        frame_size,
        i,
    ));
}

/// Every frame of an artifact that compression built is sound.
proof fn lemma_frames_sound(level: int, input: Seq<u8>, frame_size: int)
    requires
        fits(level, input, frame_size),
        frames_decode(level, input, frame_size),
    ensures
        forall|i: int|
            0 <= i < frame_count(input.len() as int, frame_size) ==> #[trigger] frame_sound(
                artifact(level, input, frame_size),
                i,
            ),
{
    assert forall|i: int| 0 <= i < frame_count(input.len() as int, frame_size) implies #[trigger] frame_sound(
        artifact(level, input, frame_size),
        i,
    ) by {
        lemma_frame_sound(level, input, frame_size, i);
    }
}

/// Every range `[start, end)` of the input reads back unchanged
/// from the artifact that compression built for it, and no frame that the
/// read decodes is malformed.
pub proof fn lemma_round_trip(level: int, input: Seq<u8>, frame_size: int, start: int, end: int)
    requires
        fits(level, input, frame_size),
        frames_decode(level, input, frame_size),
        0 <= start <= end <= input.len(),
    ensures
        opens(artifact(level, input, frame_size)),
        range_valid(artifact(level, input, frame_size), start, end),
        range_readable(artifact(level, input, frame_size), start, end),
        range_bytes(artifact(level, input, frame_size), start, end) == input.subrange(start, end),
{
    let a = artifact(level, input, frame_size);
    let len = input.len() as int;
    let n = frame_count(len, frame_size);
    lemma_artifact_reads_back(level, input, frame_size);
    lemma_frames_sound(level, input, frame_size);
    let last = last_touched(end, frame_size);
    assert(last <= n) by {
        if last > 0 {
            lemma_frame_count(end, frame_size, last - 1);
            lemma_frame_count(len, frame_size, last - 1);
        }
    }
    assert forall|i: int|
        first_touched(start, frame_size) <= i < last_touched(
            end,
            frame_size,
        ) implies #[trigger] frame_sound(a, i) by {
        assert(0 <= first_touched(start, frame_size)) by (nonlinear_arith)
            requires 0 <= start, 0 < frame_size;
    }
    assert forall|j: int| 0 <= j < end - start implies #[trigger] range_bytes(a, start, end)[j]
        == input.subrange(start, end)[j] by {
        let k = start + j;
        let q = k / frame_size;
        let r = k % frame_size;
        lemma_fundamental_div_mod(k, frame_size);
        assert(q * frame_size <= k && 0 <= q) by (nonlinear_arith)
            requires k == frame_size * q + r, 0 <= r < frame_size, 0 <= k;
        lemma_frame_count(len, frame_size, q);
        assert(q * frame_size + r == k && (q + 1) * frame_size == q * frame_size + frame_size)
            by (nonlinear_arith)
            requires k == frame_size * q + r;
        assert(frame_bytes(a, q) == zstd_frame(level, chunk(input, frame_size, q)));
        assert(zstd_frame_content(zstd_frame(level, chunk(input, frame_size, q))) == chunk(
            input,
            frame_size,
            q,
        ));
        assert(stored_byte(a, k) == chunk(input, frame_size, q)[r]);
    }
    assert(range_bytes(a, start, end) =~= input.subrange(start, end));
}

/// In an artifact that compression built, change any bytes
/// of frame `k` and every range that ends at or before that frame's first
/// input byte still reads back unchanged.
pub proof fn lemma_frame_isolation(
    level: int,
    input: Seq<u8>,
    frame_size: int,
    corrupted: Seq<u8>,
    k: int,
    start: int,
    end: int,
)
    requires
        fits(level, input, frame_size),
        frames_decode(level, input, frame_size),
        0 <= k < frame_count(input.len() as int, frame_size),
        corrupted.len() == artifact(level, input, frame_size).len(),
        forall|j: int|
            0 <= j < corrupted.len() && !(blob_start(artifact(level, input, frame_size)) + offset(
                artifact(level, input, frame_size),
                k,
            ) <= j < blob_start(artifact(level, input, frame_size)) + offset(
                artifact(level, input, frame_size),
                k + 1,
            )) ==> #[trigger] corrupted[j] == artifact(level, input, frame_size)[j],
        0 <= start <= end <= k * frame_size,
    ensures
        opens(corrupted),
        range_valid(corrupted, start, end),
        range_readable(corrupted, start, end),
        range_bytes(corrupted, start, end) == input.subrange(start, end),
{
    let a = artifact(level, input, frame_size);
    let b = corrupted;
    let len = input.len() as int;
    let n = frame_count(len, frame_size);
    lemma_artifact_reads_back(level, input, frame_size);
    lemma_frames_sound(level, input, frame_size);
    assert(k * frame_size >= 0) by (nonlinear_arith)
        requires 0 <= k, 0 < frame_size;
    lemma_frame_count(len, frame_size, k);
    lemma_round_trip(level, input, frame_size, start, end);
    let bs = blob_start(a);
    assert forall|x: int| 0 <= x && x + 4 <= bs implies #[trigger] word_at(b, x) == word_at(a, x) by {
        assert(b.subrange(x, x + 4) =~= a.subrange(x, x + 4));
    }
    assert(word_at(b, 0) == word_at(a, 0));
    assert(word_at(b, 4) == word_at(a, 4));
    assert(blob_start(b) == bs);
    assert forall|i: int| 0 <= i <= n implies #[trigger] offset(b, i) == offset(a, i) by {
        if i > 0 {
            assert(word_at(b, 8 + 4 * (i - 1)) == word_at(a, 8 + 4 * (i - 1)));
        }
    }
    assert(k * frame_size >= 0) by (nonlinear_arith)
        requires 0 <= k, 0 < frame_size;
    lemma_frame_count(end, frame_size, k);
    assert forall|i: int| 0 <= i < k implies #[trigger] frame_bytes(b, i) == frame_bytes(a, i) by {
        lemma_blob_grows(level, input, frame_size, i, i + 1);
        lemma_blob_grows(level, input, frame_size, i + 1, k);
        lemma_blob_grows(level, input, frame_size, k, n);
        assert(offset(b, i) == offset(a, i));
        assert(offset(b, i + 1) == offset(a, i + 1));
        assert(offset(a, i + 1) <= offset(a, k));
        assert(offset(a, k) <= a.len() - bs);
        assert(frame_bytes(b, i) =~= frame_bytes(a, i));
    }
    assert(0 <= first_touched(start, frame_size)) by (nonlinear_arith)
        requires 0 <= start, 0 < frame_size;
    assert forall|i: int|
        first_touched(start, frame_size) <= i < last_touched(
            end,
            frame_size,
        ) implies #[trigger] frame_sound(b, i) by {
        assert(frame_sound(a, i));
        assert(frame_bytes(b, i) == frame_bytes(a, i));
    }
    assert forall|j: int| 0 <= j < end - start implies #[trigger] range_bytes(b, start, end)[j]
        == range_bytes(a, start, end)[j] by {
        let x = start + j;
        lemma_fundamental_div_mod(x, frame_size);
        let q = x / frame_size;
        assert(q * frame_size <= x && 0 <= q) by (nonlinear_arith)
            requires x == frame_size * q + x % frame_size, 0 <= x % frame_size < frame_size, 0 <= x;
        assert(q < k) by {
            if q >= k {
                assert(q * frame_size >= k * frame_size) by (nonlinear_arith)
                    requires q >= k, 0 < frame_size;
            }
        }
        assert(frame_bytes(b, q) == frame_bytes(a, q));
    }
    assert(range_bytes(b, start, end) =~= range_bytes(a, start, end));
}

/// A read that ends anywhere in `((q - 1) * frame_size, q * frame_size]`
/// decodes frames up to `q - 1` and no further.
proof fn lemma_last_touched(end: int, frame_size: int, q: int)
    requires
        1 <= frame_size,
        (q - 1) * frame_size < end <= q * frame_size,
    ensures
        last_touched(end, frame_size) == q,
{
    assert((q - 1) * frame_size == q * frame_size - frame_size) by (nonlinear_arith);
    lemma_fundamental_div_mod_converse(end + frame_size - 1, frame_size, q, end + frame_size - 1 - q * frame_size);
}

/// A read of exactly the input bytes of frame `k`
/// decodes frame `k` alone; a read of frames `k` and `k + 1` decodes exactly
/// those two; and a read that ends on the boundary `m * frame_size` decodes
/// no frame from `m` on.
pub proof fn lemma_boundary_precision(frame_size: int, len: int, k: int, m: int)
    requires
        1 <= frame_size,
        0 <= k,
        k * frame_size < len,
        1 <= m,
    ensures
        first_touched(frame_start(k, frame_size), frame_size) == k,
        last_touched(frame_end(k, frame_size, len), frame_size) == k + 1,
        (k + 1) * frame_size < len ==> last_touched(frame_end(k + 1, frame_size, len), frame_size)
            == k + 2,
        last_touched(m * frame_size, frame_size) == m,
{
    lemma_fundamental_div_mod_converse(k * frame_size, frame_size, k, 0);
    assert((k + 1) * frame_size == k * frame_size + frame_size) by (nonlinear_arith);
    lemma_last_touched(frame_end(k, frame_size, len), frame_size, k + 1);
    if (k + 1) * frame_size < len {
        assert((k + 2) * frame_size == (k + 1) * frame_size + frame_size) by (nonlinear_arith);
        lemma_last_touched(frame_end(k + 1, frame_size, len), frame_size, k + 2);
    }
    assert((m - 1) * frame_size < m * frame_size) by (nonlinear_arith)
        requires 1 <= frame_size;
    lemma_last_touched(m * frame_size, frame_size, m);
}

/// Compressing one input twice with the same options gives the same
/// outcome: both fail, or both succeed with identical artifacts.
pub proof fn lemma_compress_deterministic(
    level: int,
    input: Seq<u8>,
    frame_size: int,
    first: Result<Seq<u8>, ()>,
    second: Result<Seq<u8>, ()>,
)
    requires
        compress_outcome(level, input, frame_size, first),
        compress_outcome(level, input, frame_size, second),
    ensures
        first == second,
{
    match (first, second) {
        (Err(x), Err(y)) => {
            assert(x == y);
        },
        _ => {},
    }
}

/// A read of a range inside the input depends only on the header, the table
/// and the frames it touches: two artifacts of one length that agree on
/// those give the same read, whatever the other frames hold.
pub proof fn lemma_read_depends_on_touched_frames(a: Seq<u8>, b: Seq<u8>, start: int, end: int)
    requires
        opens(a),
        b.len() == a.len(),
        b.subrange(0, blob_start(a)) == a.subrange(0, blob_start(a)),
        forall|i: int|
            first_touched(start, stored_frame_size(a)) <= i < last_touched(
                end,
                stored_frame_size(a),
            ) ==> #[trigger] frame_bytes(b, i) == frame_bytes(a, i),
        0 <= start <= end,
    ensures
        opens(b),
        range_valid(b, start, end) == range_valid(a, start, end),
        range_valid(a, start, end) ==> range_readable(b, start, end) == range_readable(
            a,
            start,
            end,
        ),
        range_valid(a, start, end) && range_readable(a, start, end) ==> range_bytes(b, start, end)
            == range_bytes(a, start, end),
{
    let bs = blob_start(a);
    let fs = stored_frame_size(a);
    assert forall|x: int| 0 <= x && x + 4 <= bs implies #[trigger] word_at(b, x) == word_at(a, x) by {
        assert(b.subrange(x, x + 4) =~= b.subrange(0, bs).subrange(x, x + 4));
        assert(a.subrange(x, x + 4) =~= a.subrange(0, bs).subrange(x, x + 4));
    }
    assert(word_at(b, 0) == word_at(a, 0));
    assert(word_at(b, 4) == word_at(a, 4));
    assert(blob_start(b) == bs);
    let n = stored_frame_count(a);
    assert forall|i: int| 0 <= i <= n implies #[trigger] offset(b, i) == offset(a, i) by {
        if i > 0 {
            assert(word_at(b, 8 + 4 * (i - 1)) == word_at(a, 8 + 4 * (i - 1)));
        }
    }
    let first = first_touched(start, fs);
    let last = last_touched(end, fs);
    if start < end && range_valid(a, start, end) {
        assert(0 <= first) by (nonlinear_arith)
            requires first == start / fs, 0 <= start, 0 < fs;
        assert(last <= n) by {
            if last > 0 {
                lemma_frame_count(end, fs, last - 1);
                lemma_frame_count(stored_input_len(a), fs, last - 1);
            }
        }
        assert forall|i: int| first <= i < last implies #[trigger] frame_sound(b, i) == frame_sound(
            a,
            i,
        ) by {
            assert(frame_bytes(b, i) == frame_bytes(a, i));
        }
        assert(stored_frame_size(b) == fs);
        if range_readable(a, start, end) {
            assert forall|i: int| first <= i < last implies #[trigger] frame_sound(b, i) by {
                assert(frame_sound(a, i));
            }
        }
        if range_readable(b, start, end) {
            assert forall|i: int| first <= i < last implies #[trigger] frame_sound(a, i) by {
                assert(frame_sound(b, i));
            }
        }
        if range_readable(a, start, end) {
            assert forall|j: int| 0 <= j < end - start implies #[trigger] range_bytes(b, start, end)[j]
                == range_bytes(a, start, end)[j] by {
                let x = start + j;
                lemma_fundamental_div_mod(x, fs);
                let q = x / fs;
                assert(q * fs <= x && 0 <= q) by (nonlinear_arith)
                    requires x == fs * q + x % fs, 0 <= x % fs < fs, 0 <= x;
                lemma_frame_count(end, fs, q);
                assert(first <= q) by {
                    vstd::arithmetic::div_mod::lemma_div_is_ordered(start, x, fs);
                }
                assert(frame_bytes(b, q) == frame_bytes(a, q));
            }
            assert(range_bytes(b, start, end) =~= range_bytes(a, start, end));
        }
    }
    if start == end {
        assert(range_bytes(b, start, end) =~= range_bytes(a, start, end));
    }
}

} // verus!
