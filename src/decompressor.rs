//! Reading byte ranges back out of an artifact, decoding only the frames that
//! a range overlaps.

use vstd::prelude::*;

use vstd::arithmetic::div_mod::lemma_fundamental_div_mod_converse;

use crate::codec::{decompress_frame, zstd_frame_content};
use crate::compressor::{append_bytes, slice_range};
use crate::error::Error;
use crate::layout::{
    blob_start, decode_u32_le, first_touched, frame_bytes, frame_count, frame_end, frame_sound,
    frame_start, last_touched, lemma_frame_count, offset, opens, range_bytes, range_readable,
    stored_byte, stored_frame_count, stored_frame_size, stored_input_len, HEADER_LEN, WORD_LEN,
};

verus! {

#[verifier::external_type_specification]
#[verifier::reject_recursive_types(Idx)]
pub struct ExRangeTo<Idx>(core::ops::RangeTo<Idx>);

#[verifier::external_type_specification]
#[verifier::reject_recursive_types(Idx)]
pub struct ExRangeFrom<Idx>(core::ops::RangeFrom<Idx>);

#[verifier::external_type_specification]
pub struct ExRangeFull(core::ops::RangeFull);

#[verifier::external_type_specification]
#[verifier::reject_recursive_types(Idx)]
pub struct ExRangeToInclusive<Idx>(core::ops::RangeToInclusive<Idx>);

/// Relies on `RangeInclusive::start`: the range's lower bound.
pub assume_specification<Idx>[ core::ops::RangeInclusive::<Idx>::start ](
    range: &core::ops::RangeInclusive<Idx>,
) -> (r: &Idx)
    ensures
        *r == range@.start,
;

/// Relies on `RangeInclusive::end`: the range's upper bound (inclusive).
pub assume_specification<Idx>[ core::ops::RangeInclusive::<Idx>::end ](
    range: &core::ops::RangeInclusive<Idx>,
) -> (r: &Idx)
    ensures
        *r == range@.end,
;

/// One past an inclusive upper bound, kept at `usize::MAX` where that would
/// overflow (no input is that long, so such a range is out of bounds either
/// way).
pub open spec fn past_inclusive(end: usize) -> int {
    if end == usize::MAX {
        usize::MAX as int
    } else {
        end + 1
    }
}

fn past_inclusive_exec(end: usize) -> (r: usize)
    ensures
        r == past_inclusive(end),
{
    if end == usize::MAX {
        usize::MAX
    } else {
        end + 1
    }
}

/// A range of input bytes, with bounds that may be left open: an open start
/// is 0, an open end is the input's length.
pub trait ByteRange {
    /// The first byte of the range.
    spec fn start_spec(&self) -> int;

    /// One past the last byte of the range, in an input of `len` bytes.
    spec fn end_spec(&self, len: int) -> int;

    /// The two bounds, for an input of `len` bytes.
    fn bounds(&self, len: usize) -> (r: (usize, usize))
        ensures
            r.0 == self.start_spec(),
            r.1 == self.end_spec(len as int),
    ;
}

impl ByteRange for core::ops::Range<usize> {
    open spec fn start_spec(&self) -> int {
        self.start as int
    }

    open spec fn end_spec(&self, len: int) -> int {
        self.end as int
    }

    fn bounds(&self, len: usize) -> (r: (usize, usize)) {
        (self.start, self.end)
    }
}

impl ByteRange for core::ops::RangeTo<usize> {
    open spec fn start_spec(&self) -> int {
        0
    }

    open spec fn end_spec(&self, len: int) -> int {
        self.end as int
    }

    fn bounds(&self, len: usize) -> (r: (usize, usize)) {
        (0, self.end)
    }
}

impl ByteRange for core::ops::RangeFrom<usize> {
    open spec fn start_spec(&self) -> int {
        self.start as int
    }

    open spec fn end_spec(&self, len: int) -> int {
        len
    }

    fn bounds(&self, len: usize) -> (r: (usize, usize)) {
        (self.start, len)
    }
}

impl ByteRange for core::ops::RangeFull {
    open spec fn start_spec(&self) -> int {
        0
    }

    open spec fn end_spec(&self, len: int) -> int {
        len
    }

    fn bounds(&self, len: usize) -> (r: (usize, usize)) {
        (0, len)
    }
}

impl ByteRange for core::ops::RangeToInclusive<usize> {
    open spec fn start_spec(&self) -> int {
        0
    }

    open spec fn end_spec(&self, len: int) -> int {
        past_inclusive(self.end)
    }

    fn bounds(&self, len: usize) -> (r: (usize, usize)) {
        (0, past_inclusive_exec(self.end))
    }
}

/// An inclusive range stands for its two bounds, as `start()` and `end()`
/// give them.
impl ByteRange for core::ops::RangeInclusive<usize> {
    open spec fn start_spec(&self) -> int {
        self@.start as int
    }

    open spec fn end_spec(&self, len: int) -> int {
        past_inclusive(self@.end)
    }

    fn bounds(&self, len: usize) -> (r: (usize, usize)) {
        (*self.start(), past_inclusive_exec(*self.end()))
    }
}

/// The half-open range that `range` stands for in an input of `len` bytes.
fn make_range<R: ByteRange>(range: &R, len: usize) -> (r: core::ops::Range<usize>)
    ensures
        r.start == range.start_spec(),
        r.end == range.end_spec(len as int),
{
    let (start, end) = range.bounds(len);
    start..end
}

/// `[start, end)` lies inside the input that artifact `a` holds.
pub open spec fn range_valid(a: Seq<u8>, start: int, end: int) -> bool {
    0 <= start <= end <= stored_input_len(a)
}

/// What a read of `[start, end)` from artifact `a` gives: the bytes, exactly
/// when the range lies inside the input and every frame it needs is sound;
/// otherwise `UnexpectedEof` whenever the range lies outside the input, and
/// either `UnexpectedEof` or zstd's own error where a frame it needs is not
/// sound.
pub open spec fn read_result(a: Seq<u8>, start: int, end: int, r: Result<Seq<u8>, ()>, eof: bool, codec: bool) -> bool {
    &&& r matches Ok(out) ==> range_valid(a, start, end) && range_readable(a, start, end) && out
        == range_bytes(a, start, end)
    &&& range_valid(a, start, end) && range_readable(a, start, end) ==> r is Ok
    &&& !range_valid(a, start, end) ==> eof
    &&& eof ==> !(range_valid(a, start, end) && range_readable(a, start, end))
    &&& codec ==> range_valid(a, start, end) && !range_readable(a, start, end)
}

/// A reader of byte ranges over an artifact that it borrows. It keeps one
/// scratch buffer that frames are decoded into, reused from call to call.
pub struct Decompressor<'b> {
    bytes: &'b [u8],
    frame_size: u32,
    input_len: u32,
    num_frames: usize,
    blob_start: usize,
    read_buf: Vec<u8>,
}

impl<'b> View for Decompressor<'b> {
    type V = Seq<u8>;

    /// The artifact's bytes.
    closed spec fn view(&self) -> Seq<u8> {
        self.bytes@
    }
}

/// The read failed with `UnexpectedEof`.
pub open spec fn is_eof<T>(r: Result<T, Error>) -> bool {
    r matches Err(Error::UnexpectedEof)
}

/// The read failed with zstd's own error.
pub open spec fn is_codec<T>(r: Result<T, Error>) -> bool {
    r matches Err(Error::Codec(_))
}

/// The bytes of a successful read, in the shape `read_result` takes.
pub open spec fn read_bytes(r: Result<Seq<u8>, Error>) -> Result<Seq<u8>, ()> {
    match r {
        Ok(s) => Ok(s),
        Err(_) => Err(()),
    }
}

impl<'b> Decompressor<'b> {
    /// The fields agree with the artifact's header, and the table lies
    /// inside it.
    pub closed spec fn wf(&self) -> bool {
        &&& opens(self.bytes@)
        &&& self.frame_size as int == stored_frame_size(self.bytes@)
        &&& self.input_len as int == stored_input_len(self.bytes@)
        &&& self.num_frames as int == stored_frame_count(self.bytes@)
        &&& self.blob_start as int == blob_start(self.bytes@)
    }

    /// Opens an artifact: `None` exactly when it is too short for its header
    /// or for the table that the header implies, or records a frame size of 0.
    pub fn new(bytes: &'b [u8]) -> (r: Option<Self>)
        ensures
            r is Some <==> opens(bytes@),
            r matches Some(d) ==> d.wf() && d@ == bytes@,
    {
        if bytes.len() < HEADER_LEN {
            return None;
        }
        let frame_size = decode_u32_le(bytes, 0);
        let input_len = decode_u32_le(bytes, 4);
        if frame_size == 0 {
            return None;
        }
        let fs = frame_size as usize;
        let il = input_len as usize;
        let num_frames: usize = if il == 0 { 0 } else { (il - 1) / fs + 1 };
        proof {
            lemma_ceil(il as int, fs as int);
        }
        if num_frames > (bytes.len() - HEADER_LEN) / WORD_LEN {
            return None;
        }
        Some(Decompressor {
            bytes,
            frame_size,
            input_len,
            num_frames,
            blob_start: HEADER_LEN + WORD_LEN * num_frames,
            read_buf: Vec::new(),
        })
    }

    /// The number of input bytes in every frame but the last.
    fn frame_size(&self) -> (r: usize)
        requires
            self.wf(),
        ensures
            r == stored_frame_size(self@),
    {
        self.frame_size as usize
    }

    /// Offset `i` of the table.
    fn table_offset(&self, i: usize) -> (r: u32)
        requires
            self.wf(),
            i <= self.num_frames,
        ensures
            r == offset(self@, i as int),
    {
        if i == 0 {
            0
        } else {
            decode_u32_le(self.bytes, HEADER_LEN + WORD_LEN * (i - 1))
        }
    }

    /// Reads the input bytes `[start, end)` into `buf`, replacing what it held.
    /// On an error `buf` is left as it was. An empty range decodes no frame.
    fn read_into(&mut self, buf: &mut Vec<u8>, start: usize, end: usize) -> (r: Result<(), Error>)
        requires
            old(self).wf(),
        ensures
            final(self).wf(),
            final(self)@ == old(self)@,
            read_result(
                old(self)@,
                start as int,
                end as int,
                read_bytes(
                    match r {
                        Ok(_) => Ok(final(buf)@),
                        Err(e) => Err(e),
                    },
                ),
                is_eof(r),
                is_codec(r),
            ),
            !(r matches Err(Error::TooLarge)),
            r is Err ==> final(buf)@ == old(buf)@,
    {
        let ghost a = self@;
        if start > end || end > self.input_len as usize {
            return Err(Error::UnexpectedEof);
        }
        if start == end {
            buf.clear();
            assert(buf@ =~= range_bytes(a, start as int, end as int));
            return Ok(());
        }
        let mut out: Vec<u8> = Vec::with_capacity(end - start);
        let fs = self.frame_size();
        let il = self.input_len as usize;
        let first = start / fs;
        let last: usize = if end == 0 { 0 } else { (end - 1) / fs + 1 };
        proof {
            lemma_ceil(end as int, fs as int);
            lemma_frame_count(end as int, fs as int, first as int);
            if last > 0 {
                lemma_frame_count(end as int, fs as int, (last - 1) as int);
                lemma_frame_count(il as int, fs as int, (last - 1) as int);
            }
            vstd::arithmetic::div_mod::lemma_fundamental_div_mod(start as int, fs as int);
            assert(first * fs <= start < first * fs + fs) by (nonlinear_arith)
                requires
                    start == fs * first + start % fs,
                    0 <= start % fs < fs,
            ;
            if first * fs >= end {
                lemma_fundamental_div_mod_converse(end + fs - 1, fs as int, first as int, fs - 1);
            }
        }
        let mut k = first;
        while k < last
            invariant
                self.wf(),
                self@ == a,
                a == old(self)@,
                buf@ == old(buf)@,
                start < end,
                fs == stored_frame_size(a),
                il == stored_input_len(a),
                first == first_touched(start as int, fs as int),
                last == last_touched(end as int, fs as int),
                last <= self.num_frames,
                start <= end <= il,
                first * fs <= start < first * fs + fs,
                first <= k <= last,
                forall|i: int| first <= i < k ==> #[trigger] frame_sound(a, i),
                k == first ==> out@.len() == 0,
                k > first ==> start < k * fs && out@ == range_bytes(
                    a,
                    start as int,
                    if k * fs < end { k * fs } else { end as int },
                ),
            decreases last - k,
        {
            proof {
                lemma_frame_count(end as int, fs as int, k as int);
            }
            let lo = self.table_offset(k);
            let hi = self.table_offset(k + 1);
            if lo > hi || hi as usize > self.bytes.len() - self.blob_start {
                assert(!frame_sound(a, k as int));
                return Err(Error::UnexpectedEof);
            }
            let frame = slice_range(
                self.bytes,
                self.blob_start + lo as usize,
                self.blob_start + hi as usize,
            );
            let kfs = k * fs;
            assert((k + 1) * fs == kfs + fs) by (nonlinear_arith)
                requires kfs == k * fs;
            let expected = if il - kfs > fs { fs } else { il - kfs };
            assert(expected == frame_end(k as int, fs as int, il as int) - frame_start(k as int, fs as int));
            self.read_buf.clear();
            match decompress_frame(frame, &mut self.read_buf, expected) {
                Ok(_) => {},
                Err(e) => {
                    assert(!frame_sound(a, k as int));
                    return Err(Error::Codec(e));
                },
            }
            let ghost content = zstd_frame_content(frame_bytes(a, k as int));
            assert(self.read_buf@ == content);
            if self.read_buf.len() != expected {
                assert(!frame_sound(a, k as int));
                return Err(Error::UnexpectedEof);
            }
            let from = if k == first { start - kfs } else { 0 };
            let to = if end - kfs < expected { end - kfs } else { expected };
            let ghost prev = out@;
            let part = slice_range(self.read_buf.as_slice(), from, to);
            append_bytes(&mut out, part);
            proof {
                let upto = if (k + 1) * fs < end { (k + 1) * fs } else { end as int };
                assert((k + 1) * fs == kfs + fs) by (nonlinear_arith)
                    requires kfs == k * fs;
                assert(upto == kfs + to);
                assert forall|j: int| 0 <= j < upto - start implies #[trigger] out@[j] == stored_byte(
                    a,
                    start + j,
                ) by {
                    if start + j >= kfs + from {
                        let m = start + j;
                        lemma_fundamental_div_mod_converse(m, fs as int, k as int, m - kfs);
                    } else {
                        assert(prev == range_bytes(
                            a,
                            start as int,
                            if k * fs < end { k * fs } else { end as int },
                        ));
                    }
                }
                assert(out@ =~= range_bytes(a, start as int, upto));
            }
            k = k + 1;
        }
        proof {
            if k == first {
                assert(start == end);
            } else {
                lemma_frame_count(end as int, fs as int, k as int);
            }
            assert(out@ =~= range_bytes(a, start as int, end as int));
        }
        *buf = out;
        Ok(())
    }

    /// Reads the input bytes that `range` covers into `buf`, replacing what it
    /// held, and returns them. On an error `buf` is left as it was.
    pub fn get_into<'o, R: ByteRange>(&mut self, buf: &'o mut Vec<u8>, range: R) -> (r: Result<&'o [u8], Error>)
        requires
            old(self).wf(),
        ensures
            final(self).wf(),
            final(self)@ == old(self)@,
            read_result(
                old(self)@,
                range.start_spec(),
                range.end_spec(stored_input_len(old(self)@)),
                read_bytes(
                    match r {
                        Ok(s) => Ok(s@),
                        Err(e) => Err(e),
                    },
                ),
                is_eof(r),
                is_codec(r),
            ),
            !(r matches Err(Error::TooLarge)),
            r matches Ok(s) ==> final(buf)@ == s@,
            r is Err ==> final(buf)@ == old(buf)@,
    {
        let range = make_range(&range, self.input_len as usize);
        match self.read_into(buf, range.start, range.end) {
            Ok(()) => Ok(buf.as_slice()),
            Err(e) => Err(e),
        }
    }

    /// Reads the input bytes that `range` covers into a new vector.
    pub fn get<R: ByteRange>(&mut self, range: R) -> (r: Result<Vec<u8>, Error>)
        requires
            old(self).wf(),
        ensures
            final(self).wf(),
            final(self)@ == old(self)@,
            read_result(
                old(self)@,
                range.start_spec(),
                range.end_spec(stored_input_len(old(self)@)),
                read_bytes(
                    match r {
                        Ok(v) => Ok(v@),
                        Err(e) => Err(e),
                    },
                ),
                is_eof(r),
                is_codec(r),
            ),
            !(r matches Err(Error::TooLarge)),
    {
        let mut buf: Vec<u8> = Vec::new();
        let range = make_range(&range, self.input_len as usize);
        match self.read_into(&mut buf, range.start, range.end) {
            Ok(()) => Ok(buf),
            Err(e) => Err(e),
        }
    }
}

/// `ceil(len / frame_size)`, as computed without overflow.
proof fn lemma_ceil(len: int, frame_size: int)
    requires
        0 <= len,
        0 < frame_size,
    ensures
        frame_count(len, frame_size) == if len == 0 { 0 } else { (len - 1) / frame_size + 1 },
{
    assert(frame_count(len, frame_size) == if len == 0 { 0 } else { (len - 1) / frame_size + 1 })
        by (nonlinear_arith)
        requires
            0 <= len,
            0 < frame_size,
    ;
}

} // verus!
