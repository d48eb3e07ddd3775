//! Recovers canonical segments from any storage wrapper.
//!
//! Given a bare segment stream, a fragmented MP4 (`ftyp`, `moov`, segments) or
//! a flat MP4 (`ftyp`, `moov`, one `mdat` around the segments), the reader
//! skips the container framing, without parsing the `moov` or any sample table,
//! and splits the segment stream on `uuid` boundaries. What it returns are
//! verbatim parts of the input, so a hash or a signature over a segment
//! survives every storage format.

use vstd::prelude::*;
use vstd::slice::slice_subrange;

use crate::boxes::{
    box_at, box_error_text, is_muxl_box, muxl_box, read_be32, read_be64, read_box_header, BoxError,
    BoxSpan, MDAT, MOOF, UUID,
};
use crate::catalog::{
    empty_catalog, first_of, merge_segment_catalog, merged, AudioConfigView, Catalog,
    CatalogView, Display, VideoConfigView,
};
use crate::error::{invalid_mp4, Error, ErrorView};
use crate::io::ReadAt;
use crate::text::{decimal, push_decimal};

verus! {

/// A stretch of bytes, from `start` up to and without `end`.
#[derive(Clone, Copy, Debug, PartialEq, Eq, Structural)]
pub struct Span {
    pub start: usize,
    pub end: usize,
}

/// A stretch of a sequence.
pub struct Range {
    pub start: int,
    pub end: int,
}

impl View for Span {
    type V = Range;

    open spec fn view(&self) -> Range {
        Range { start: self.start as int, end: self.end as int }
    }
}

/// The bytes of `s` that `r` covers.
pub open spec fn bytes_of(s: Seq<u8>, r: Range) -> Seq<u8> {
    s.subrange(r.start, r.end)
}

/// Why a segment stream cannot be found or split, and where.
pub enum Fault {
    /// The box header at `pos` cannot be read.
    Header { pos: int, error: BoxError },
    /// The box at `pos` stands where a segment must begin, and is no `uuid` box.
    NotUuid { pos: int, kind: int },
}

/// Whether the box at `pos` is a MUXL `uuid` box. It tells the signing prefix
/// of a segment, followed by the segment's MUXL `uuid`, from a box of the
/// wrapper.
pub open spec fn muxl_follows(s: Seq<u8>, pos: int) -> bool {
    box_at(s, pos) matches Ok(b) && is_muxl_box(s, b)
}

/// Whether the box `b` at `pos` is where the segment stream begins: a `moof`, a
/// MUXL `uuid`, or another `uuid` directly before a MUXL `uuid`.
pub open spec fn opens_stream(s: Seq<u8>, b: BoxSpan) -> bool {
    b.kind == MOOF || (b.kind == UUID && (is_muxl_box(s, b) || muxl_follows(s, b.end)))
}

/// Where the segment stream lies in `s`, searched from the box at `pos` on: the
/// body of the first `mdat` box, or everything from the first box that opens a
/// stream on, whichever comes first. Every other box is framing. Where framing
/// reaches to the end, the stream is empty and lies there. Without anything that
/// can be framing all of `s` is the stream.
pub open spec fn locate(s: Seq<u8>, pos: int) -> Result<Range, Fault>
    decreases s.len() - pos,
{
    if pos == s.len() {
        Ok(Range { start: pos, end: pos })
    } else if pos + 8 > s.len() {
        Ok(Range { start: 0, end: s.len() as int })
    } else {
        match box_at(s, pos) {
            Err(error) => Err(Fault::Header { pos, error }),
            Ok(b) => if b.kind == MDAT {
                Ok(Range { start: b.body, end: b.end })
            } else if opens_stream(s, b) {
                Ok(Range { start: pos, end: s.len() as int })
            } else {
                locate(s, b.end)
            },
        }
    }
}

/// Result of splitting a segment stream: the segments found, and what stopped
/// the split before the end, if anything did.
pub struct Split {
    pub segments: Seq<Range>,
    pub fault: Option<Fault>,
}

/// `r`, then what `rest` holds.
pub open spec fn prepend(r: Range, rest: Split) -> Split {
    Split { segments: seq![r] + rest.segments, fault: rest.fault }
}

/// Splits `s` from the box at `pos` on. `open` is where the current segment
/// began, and `has_muxl` whether it already holds its MUXL `uuid`.
///
/// A `uuid` box ends the current segment and begins the next when it is of
/// another user type (a signing prefix always comes first) or when the current
/// segment has its MUXL `uuid` already. The last segment reaches to the end.
pub open spec fn split_from(s: Seq<u8>, pos: int, open: Option<int>, has_muxl: bool) -> Split
    decreases s.len() - pos,
{
    if pos + 8 > s.len() {
        match open {
            Some(start) => Split {
                segments: seq![Range { start, end: s.len() as int }],
                fault: None,
            },
            None => Split { segments: seq![], fault: None },
        }
    } else {
        match box_at(s, pos) {
            Err(error) => Split { segments: seq![], fault: Some(Fault::Header { pos, error }) },
            Ok(b) => if b.kind == UUID {
                let muxl = is_muxl_box(s, b);
                match open {
                    Some(start) => if !muxl || has_muxl {
                        prepend(
                            Range { start, end: pos },
                            split_from(s, b.end, Some(pos), muxl),
                        )
                    } else {
                        split_from(s, b.end, open, true)
                    },
                    None => split_from(s, b.end, Some(pos), muxl),
                }
            } else {
                match open {
                    Some(_) => split_from(s, b.end, open, has_muxl),
                    None => Split {
                        segments: seq![],
                        fault: Some(Fault::NotUuid { pos, kind: b.kind }),
                    },
                }
            },
        }
    }
}

/// The canonical segments of the segment stream `s`.
pub open spec fn split(s: Seq<u8>) -> Split {
    split_from(s, 0, None, false)
}

/// Message of a [`Fault`] met while a whole input is in memory.
pub open spec fn fault_text(f: Fault) -> Seq<char> {
    match f {
        Fault::Header { pos, error } => box_error_text(error),
        Fault::NotUuid { pos, kind } => "segment stream did not begin with a uuid box"@,
    }
}

/// Whether the box at `pos` is a MUXL `uuid` box.
fn next_box_is_muxl(bytes: &[u8], pos: usize) -> (r: bool)
    ensures
        r == muxl_follows(bytes@, pos as int),
{
    match read_box_header(bytes, pos) {
        Ok(h) => muxl_box(bytes, &h),
        Err(_) => false,
    }
}

/// Finds the segment stream inside a storage wrapper.
pub fn locate_segment_stream(bytes: &[u8]) -> (r: Result<Span, Error>)
    ensures
        match r {
            Ok(span) => locate(bytes@, 0) == Ok::<Range, Fault>(span@) && span.start <= span.end
                && span.end <= bytes@.len(),
            Err(e) => locate(bytes@, 0) matches Err(f) && e@ == ErrorView::InvalidMp4(
                fault_text(f),
            ),
        },
{
    let len: usize = bytes.len();
    let mut pos: usize = 0;
    while len >= 8 && pos <= len - 8
        invariant
            len == bytes@.len(),
            pos <= len,
            locate(bytes@, 0) == locate(bytes@, pos as int),
        decreases len - pos,
    {
        match read_box_header(bytes, pos) {
            Err(e) => {
                return Err(e.to_error());
            },
            Ok(h) => {
                if h.kind == MDAT {
                    return Ok(Span { start: h.body, end: h.end });
                }
                if h.kind == MOOF || (h.kind == UUID && (muxl_box(bytes, &h) || next_box_is_muxl(
                    bytes,
                    h.end,
                ))) {
                    return Ok(Span { start: pos, end: len });
                }
                pos = h.end;
            },
        }
    }
    if pos == len {
        return Ok(Span { start: len, end: len });
    }
    Ok(Span { start: 0, end: len })
}

/// The segments of a stream that was split, and the error that stopped the
/// split, if one did.
pub struct Scan {
    pub segments: Vec<Span>,
    pub error: Option<Error>,
}

/// The views of the spans in `v`.
pub open spec fn ranges(v: Seq<Span>) -> Seq<Range> {
    v.map_values(|s: Span| s@)
}

/// Splits a segment stream into its canonical segments.
pub fn scan_segments(stream: &[u8]) -> (r: Scan)
    ensures
        ranges(r.segments@) == split(stream@).segments,
        match r.error {
            None => split(stream@).fault is None,
            Some(e) => split(stream@).fault matches Some(f) && e@ == ErrorView::InvalidMp4(
                fault_text(f),
            ),
        },
        forall|i: int| 0 <= i < r.segments@.len() ==> (#[trigger] r.segments@[i]).start
            <= r.segments@[i].end <= stream@.len(),
{
    let len: usize = stream.len();
    let mut segments: Vec<Span> = Vec::new();
    let mut open: Option<usize> = None;
    let mut has_muxl = false;
    let mut pos: usize = 0;
    while len >= 8 && pos <= len - 8
        invariant
            len == stream@.len(),
            pos <= len,
            open matches Some(start) ==> start <= pos,
            open is None ==> !has_muxl,
            forall|i: int| 0 <= i < segments@.len() ==> (#[trigger] segments@[i]).start
                <= segments@[i].end <= len,
            ({
                let rest = split_from(
                    stream@,
                    pos as int,
                    match open {
                        Some(start) => Some(start as int),
                        None => None,
                    },
                    has_muxl,
                );
                &&& split(stream@).segments == ranges(segments@) + rest.segments
                &&& split(stream@).fault == rest.fault
            }),
        decreases len - pos,
    {
        match read_box_header(stream, pos) {
            Err(e) => {
                assert(ranges(segments@) + seq![] =~= ranges(segments@));
                return Scan { segments, error: Some(e.to_error()) };
            },
            Ok(h) => {
                if h.kind == UUID {
                    let muxl = muxl_box(stream, &h);
                    match open {
                        Some(start) => {
                            if !muxl || has_muxl {
                                proof {
                                    let span = Span { start, end: pos };
                                    assert(ranges(segments@.push(span)) =~= ranges(segments@).push(
                                        span@,
                                    ));
                                    let rest = split_from(
                                        stream@,
                                        h.end as int,
                                        Some(pos as int),
                                        muxl,
                                    );
                                    assert(ranges(segments@) + (seq![span@] + rest.segments)
                                        =~= ranges(segments@).push(span@) + rest.segments);
                                }
                                segments.push(Span { start, end: pos });
                                open = Some(pos);
                                has_muxl = muxl;
                            } else {
                                has_muxl = true;
                            }
                        },
                        None => {
                            open = Some(pos);
                            has_muxl = muxl;
                        },
                    }
                } else if open.is_none() {
                    assert(ranges(segments@) + seq![] =~= ranges(segments@));
                    return Scan {
                        segments,
                        error: Some(invalid_mp4("segment stream did not begin with a uuid box")),
                    };
                }
                pos = h.end;
            },
        }
    }
    match open {
        Some(start) => {
            let ghost span = Span { start, end: len };
            assert(ranges(segments@.push(span)) =~= ranges(segments@) + seq![span@]);
            segments.push(Span { start, end: len });
        },
        None => {
            assert(ranges(segments@) + seq![] =~= ranges(segments@));
        },
    }
    Scan { segments, error: None }
}

/// A box in an input read by position.
#[derive(Clone, Copy, Debug, PartialEq, Eq, Structural)]
pub struct WideHeader {
    pub kind: u32,
    pub body: u64,
    pub end: u64,
}

impl View for WideHeader {
    type V = BoxSpan;

    open spec fn view(&self) -> BoxSpan {
        BoxSpan { kind: self.kind as int, body: self.body as int, end: self.end as int }
    }
}

/// Message for the box header at `pos` that cannot be read.
pub open spec fn malformed_text(pos: int) -> Seq<char> {
    "malformed box header at offset "@ + decimal(pos as nat)
}

fn malformed(pos: u64) -> (e: Error)
    ensures
        e@ == ErrorView::InvalidMp4(malformed_text(pos as int)),
{
    let mut m = "malformed box header at offset ".to_string();
    push_decimal(&mut m, pos);
    Error::InvalidMp4(m)
}

/// Whether `e` reports that the platform failed to serve a read of `input`.
pub open spec fn read_failed<R: ReadAt + ?Sized>(input: &R, e: Error) -> bool {
    e@ is Io && !input.reliable()
}

/// Reads the box header at `pos` of the first `size` bytes of an input.
fn read_box_header_at<R: ReadAt + ?Sized>(input: &R, pos: u64, size: u64) -> (r: Result<
    WideHeader,
    Error,
>)
    requires
        size <= input.contents().len(),
    ensures
        ({
            let found = box_at(input.contents().take(size as int), pos as int);
            match r {
                Ok(h) => found == Ok::<BoxSpan, BoxError>(h@),
                Err(e) => read_failed(input, e) || (found is Err && e@ == ErrorView::InvalidMp4(
                    malformed_text(pos as int),
                )),
            }
        }),
{
    if pos > size || size - pos < 8 {
        return Err(malformed(pos));
    }
    let want: usize = if size - pos >= 16 {
        16
    } else {
        8
    };
    let mut hdr: Vec<u8> = vec![0u8; want];
    match input.read_exact_at(pos, hdr.as_mut_slice()) {
        Err(e) => {
            return Err(Error::Io(e));
        },
        Ok(()) => {},
    }
    proof {
        let s = input.contents().take(size as int);
        assert(hdr@ =~= s.subrange(pos as int, pos + want));
        assert forall|i: int| 0 <= i < want implies #[trigger] hdr@[i] == s[pos + i] by {}
    }
    let size32: u32 = read_be32(hdr.as_slice(), 0);
    let kind: u32 = read_be32(hdr.as_slice(), 4);
    if size32 == 0 {
        Ok(WideHeader { kind, body: pos + 8, end: size })
    } else if size32 == 1 {
        if want < 16 {
            return Err(malformed(pos));
        }
        let large: u64 = read_be64(hdr.as_slice(), 8);
        if large < 16 || large > size - pos {
            return Err(malformed(pos));
        }
        Ok(WideHeader { kind, body: pos + 16, end: pos + large })
    } else {
        if size32 < 8 || size32 as u64 > size - pos {
            return Err(malformed(pos));
        }
        Ok(WideHeader { kind, body: pos + 8, end: pos + size32 as u64 })
    }
}

/// Whether the box that [`read_box_header_at`] found in the first `size` bytes is a
/// MUXL `uuid` box.
fn is_muxl_uuid_at<R: ReadAt + ?Sized>(input: &R, h: &WideHeader, size: u64) -> (r: Result<
    bool,
    Error,
>)
    requires
        h.body <= h.end <= size <= input.contents().len(),
    ensures
        match r {
            Ok(b) => b == is_muxl_box(input.contents().take(size as int), h@),
            Err(e) => read_failed(input, e),
        },
{
    if h.kind != UUID || h.end - h.body < 16 {
        return Ok(false);
    }
    let mut uuid: Vec<u8> = vec![0u8; 16];
    match input.read_exact_at(h.body, uuid.as_mut_slice()) {
        Err(e) => {
            return Err(Error::Io(e));
        },
        Ok(()) => {},
    }
    assert(uuid@ =~= input.contents().take(size as int).subrange(h.body as int, h.body + 16));
    assert(uuid@.subrange(0, 16) =~= uuid@);
    Ok(crate::boxes::muxl_uuid_at(uuid.as_slice(), 0))
}

/// Message of a [`Fault`] met while the segment stream is looked for by
/// position.
pub open spec fn locate_fault_text(f: Fault) -> Seq<char> {
    match f {
        Fault::Header { pos, error } => malformed_text(pos),
        Fault::NotUuid { pos, kind } => malformed_text(pos),
    }
}

/// The segment stream inside an input read by position.
#[derive(Clone, Copy, Debug, PartialEq, Eq, Structural)]
pub struct WideSpan {
    pub start: u64,
    pub end: u64,
}

impl View for WideSpan {
    type V = Range;

    open spec fn view(&self) -> Range {
        Range { start: self.start as int, end: self.end as int }
    }
}

/// Finds the segment stream inside a storage wrapper of `size` bytes. Only the
/// leading container framing is read, never the body.
fn find_stream<R: ReadAt + ?Sized>(input: &R, size: u64) -> (r: Result<WideSpan, Error>)
    requires
        size == input.contents().len(),
    ensures
        match r {
            Ok(span) => locate(input.contents(), 0) == Ok::<Range, Fault>(span@) && span.start
                <= span.end <= size,
            Err(e) => read_failed(input, e) || (locate(input.contents(), 0) matches Err(f) && e@
                == ErrorView::InvalidMp4(locate_fault_text(f))),
        },
{
    let ghost s = input.contents();
    assert(s.take(size as int) =~= s);
    let mut pos: u64 = 0;
    while size >= 8 && pos <= size - 8
        invariant
            s == input.contents(),
            size == s.len(),
            s.take(size as int) == s,
            pos <= size,
            locate(s, 0) == locate(s, pos as int),
        decreases size - pos,
    {
        let h: WideHeader = match read_box_header_at(input, pos, size) {
            Ok(h) => h,
            Err(e) => {
                return Err(e);
            },
        };
        if h.kind == MDAT {
            return Ok(WideSpan { start: h.body, end: h.end });
        }
        if h.kind == MOOF {
            return Ok(WideSpan { start: pos, end: size });
        }
        if h.kind == UUID {
            match is_muxl_uuid_at(input, &h, size) {
                Err(e) => {
                    return Err(e);
                },
                Ok(muxl) => {
                    if muxl {
                        return Ok(WideSpan { start: pos, end: size });
                    }
                },
            }
            if size - h.end >= 8 {
                match read_box_header_at(input, h.end, size) {
                    Err(e) => {
                        proof {
                            // The search goes on at the same header, and fails there.
                            assert(!muxl_follows(s, h.end as int) ==> locate(s, pos as int)
                                == locate(s, h.end as int));
                        }
                        return Err(e);
                    },
                    Ok(next) => {
                        match is_muxl_uuid_at(input, &next, size) {
                            Err(e) => {
                                return Err(e);
                            },
                            Ok(muxl) => {
                                if muxl {
                                    return Ok(WideSpan { start: pos, end: size });
                                }
                            },
                        }
                    },
                }
            }
        }
        pos = h.end;
    }
    if pos == size {
        return Ok(WideSpan { start: size, end: size });
    }
    Ok(WideSpan { start: 0, end: size })
}

/// Byte offset at which the segment stream begins inside a storage wrapper.
/// Only the leading container framing is read, never the body.
///
/// This is the base that turns an offset counted from the first segment into a
/// position in the input. It is 0 for a bare segment stream.
pub fn segment_stream_start<R: ReadAt + ?Sized>(input: &R) -> (r: Result<u64, Error>)
    ensures
        match r {
            Ok(n) => locate(input.contents(), 0) matches Ok(range) && n == range.start,
            Err(e) => read_failed(input, e) || (locate(input.contents(), 0) matches Err(f) && e@
                == ErrorView::InvalidMp4(locate_fault_text(f))),
        },
{
    let size: u64 = match input.size() {
        Ok(n) => n,
        Err(e) => {
            return Err(Error::Io(e));
        },
    };
    match find_stream(input, size) {
        Ok(span) => Ok(span.start),
        Err(e) => Err(e),
    }
}

/// Where a recorded segment offset is measured from. Storage layouts differ on
/// this, and a wrong guess reads a header's worth of the wrong bytes.
#[derive(Clone, Copy, Debug, PartialEq, Eq, Structural)]
pub enum SegmentOffset {
    /// From the first canonical segment: the framing ahead of it is resolved
    /// and added.
    Stream(u64),
    /// From the start of the input: nothing is added.
    File(u64),
}

impl SegmentOffset {
    /// The number, without its base.
    pub open spec fn value(self) -> int {
        match self {
            SegmentOffset::Stream(o) => o as int,
            SegmentOffset::File(o) => o as int,
        }
    }
}

/// Text of the box type `kind`, for messages: `String::from_utf8_lossy` of its
/// four bytes.
pub uninterp spec fn lossy_text(bytes: Seq<u8>) -> Seq<char>;

/// `String::from_utf8_lossy`: the text that the bytes encode, with what is not
/// valid UTF-8 replaced. On valid UTF-8 it is the text itself.
#[verifier::external_body]
fn from_utf8_lossy(bytes: &[u8]) -> (r: String)
    ensures
        r@ == lossy_text(bytes@),
        vstd::utf8::valid_utf8(bytes@) ==> vstd::utf8::encode_utf8(r@) == bytes@,
{
    String::from_utf8_lossy(bytes).into_owned()
}

/// The four bytes of the box type `kind`.
pub open spec fn kind_bytes(kind: int) -> Seq<u8> {
    seq![
        (kind / 0x100_0000) as u8,
        (kind / 0x1_0000 % 0x100) as u8,
        (kind / 0x100 % 0x100) as u8,
        (kind % 0x100) as u8,
    ]
}

/// Message for a start that lies past the end of the input.
pub open spec fn past_end_text(offset: int, base: int, total: int) -> Seq<char> {
    "segment offset "@ + decimal(offset as nat)
        + " runs past the end of the input (segment stream starts at "@ + decimal(base as nat)
        + ", input is "@ + decimal(total as nat) + " bytes)"@
}

/// Message for a start at which no segment begins.
pub open spec fn boundary_text(offset: int, kind: int) -> Seq<char> {
    "offset "@ + decimal(offset as nat) + " does not land on a segment boundary (found a "@
        + lossy_text(kind_bytes(kind)) + " box, expected uuid)"@
}

/// Message for a request of more segments than there are.
pub open spec fn too_few_text(count: int, offset: int, held: int) -> Seq<char> {
    "requested "@ + decimal(count as nat) + " segments from offset "@ + decimal(offset as nat)
        + " but the stream held only "@ + decimal(held as nat)
}

/// Message of a [`Fault`] met while segments are read from `offset` on.
pub open spec fn read_fault_text(offset: int, f: Fault) -> Seq<char> {
    match f {
        Fault::Header { pos, error } => malformed_text(pos),
        Fault::NotUuid { pos, kind } => boundary_text(offset, kind),
    }
}

/// Where the segments of `t` from `start` on end: `count` of them, or all up to
/// the end of `t`. `offset` is what messages call the start.
pub open spec fn segments_end(t: Seq<u8>, start: int, offset: int, count: Option<u64>) -> Result<
    int,
    Seq<char>,
> {
    let found = split_from(t, start, None, false);
    let held = found.segments.len() as int;
    match count {
        None => if start < t.len() && start + 8 > t.len() {
            Err(malformed_text(start))
        } else {
            match found.fault {
                Some(f) => Err(read_fault_text(offset, f)),
                None => Ok(t.len() as int),
            }
        },
        Some(n) => if n == 0 {
            Ok(start)
        } else if n <= held {
            Ok(found.segments[n - 1].end)
        } else {
            match found.fault {
                Some(f) => Err(read_fault_text(offset, f)),
                None => Err(too_few_text(n as int, offset, held)),
            }
        },
    }
}

/// Where the segment stream of `s` ends: where `s` does, if its framing cannot be
/// read.
pub open spec fn stream_end(s: Seq<u8>) -> int {
    match locate(s, 0) {
        Ok(r) => r.end,
        Err(_) => s.len() as int,
    }
}

/// How far segments are read from `start` on: to the end of the segment stream, or to
/// that of the input where the stream ends before.
pub open spec fn read_limit(s: Seq<u8>, start: int) -> int {
    if start < stream_end(s) {
        stream_end(s)
    } else {
        s.len() as int
    }
}

/// What [`read_segments_at`] reads, or the message of its failure.
pub open spec fn segments_at(s: Seq<u8>, offset: SegmentOffset, count: Option<u64>) -> Result<
    Range,
    Seq<char>,
> {
    let base: Result<int, Seq<char>> = match offset {
        SegmentOffset::File(_) => Ok(0),
        SegmentOffset::Stream(_) => match locate(s, 0) {
            Ok(r) => Ok(r.start),
            Err(f) => Err(locate_fault_text(f)),
        },
    };
    match base {
        Err(t) => Err(t),
        Ok(b) => {
            let start = b + offset.value();
            if start > s.len() {
                Err(past_end_text(offset.value(), b, s.len() as int))
            } else {
                match segments_end(
                    s.take(read_limit(s, start)),
                    start,
                    offset.value(),
                    count,
                ) {
                    Err(t) => Err(t),
                    Ok(end) => Ok(Range { start, end }),
                }
            }
        },
    }
}

proof fn lemma_split_bounds(s: Seq<u8>, pos: int, open: Option<int>, has_muxl: bool)
    requires
        0 <= pos <= s.len(),
        open matches Some(start) ==> 0 <= start <= pos,
    ensures
        forall|i: int|
            0 <= i < split_from(s, pos, open, has_muxl).segments.len() ==> 0 <= (
            #[trigger] split_from(s, pos, open, has_muxl).segments[i]).start && (open matches Some(
                start,
            ) ==> start <= split_from(s, pos, open, has_muxl).segments[i].start) && (open is None
                ==> pos <= split_from(s, pos, open, has_muxl).segments[i].start)
                && split_from(s, pos, open, has_muxl).segments[i].start <= split_from(
                s,
                pos,
                open,
                has_muxl,
            ).segments[i].end <= s.len(),
    decreases s.len() - pos,
{
    if pos + 8 <= s.len() {
        if let Ok(b) = box_at(s, pos) {
            if b.kind == UUID {
                let muxl = is_muxl_box(s, b);
                match open {
                    Some(start) => if !muxl || has_muxl {
                        lemma_split_bounds(s, b.end, Some(pos), muxl);
                        let rest = split_from(s, b.end, Some(pos), muxl);
                        let all = split_from(s, pos, open, has_muxl);
                        assert forall|i: int| 0 <= i < all.segments.len() implies start <= (
                        #[trigger] all.segments[i]).start <= all.segments[i].end <= s.len() by {
                            if i > 0 {
                                assert(all.segments[i] == rest.segments[i - 1]);
                            }
                        }
                    } else {
                        lemma_split_bounds(s, b.end, open, true);
                    },
                    None => lemma_split_bounds(s, b.end, Some(pos), muxl),
                }
            } else if open is Some {
                lemma_split_bounds(s, b.end, open, has_muxl);
            }
        }
    }
}

fn boundary_error(offset: u64, kind: u32) -> (e: Error)
    ensures
        e@ == ErrorView::InvalidMp4(boundary_text(offset as int, kind as int)),
{
    let kind_text: Vec<u8> = vec![
        (kind / 0x100_0000) as u8,
        (kind / 0x1_0000 % 0x100) as u8,
        (kind / 0x100 % 0x100) as u8,
        (kind % 0x100) as u8,
    ];
    assert(kind_text@ =~= kind_bytes(kind as int));
    let mut m = "offset ".to_string();
    push_decimal(&mut m, offset);
    m.push_str(" does not land on a segment boundary (found a ");
    let name = from_utf8_lossy(kind_text.as_slice());
    m.push_str(name.as_str());
    m.push_str(" box, expected uuid)");
    Error::InvalidMp4(m)
}

/// Walks box headers of the first `total` bytes from `start` on until `count`
/// segments have ended. Only headers are read.
fn find_segments_end<R: ReadAt + ?Sized>(
    input: &R,
    total: u64,
    start: u64,
    offset: u64,
    count: Option<u64>,
) -> (r: Result<u64, Error>)
    requires
        total <= input.contents().len(),
        start <= total,
    ensures
        ({
            let t = input.contents().take(total as int);
            let want = segments_end(t, start as int, offset as int, count);
            match r {
                Ok(end) => want == Ok::<int, Seq<char>>(end as int) && start <= end <= total,
                Err(e) => read_failed(input, e) || (want matches Err(t) && e@
                    == ErrorView::InvalidMp4(t)),
            }
        }),
{
    let ghost s = input.contents().take(total as int);
    match count {
        Some(c) => {
            if c == 0 {
                return Ok(start);
            }
        },
        None => {
            if start < total && total - start < 8 {
                return Err(malformed(start));
            }
        },
    }
    let ghost found = split_from(s, start as int, None, false);
    proof {
        lemma_split_bounds(s, start as int, None, false);
    }
    let ghost mut done: Seq<Range> = seq![];
    let mut pos: u64 = start;
    let mut closed: u64 = 0;
    let mut open = false;
    let ghost mut opened: int = 0;
    let mut has_muxl = false;
    assert(done + found.segments =~= found.segments);
    while total >= 8 && pos <= total - 8
        invariant
            total <= input.contents().len(),
            s == input.contents().take(total as int),
            total == s.len(),
            start <= pos <= total,
            closed == done.len(),
            closed * 8 <= pos,
            found == split_from(s, start as int, None, false),
            !open ==> !has_muxl && closed == 0,
            count matches Some(c) ==> closed < c,
            count is None ==> start == total || start + 8 <= total,
            ({
                let rest = split_from(
                    s,
                    pos as int,
                    if open {
                        Some(opened)
                    } else {
                        None
                    },
                    has_muxl,
                );
                &&& found.segments == done + rest.segments
                &&& found.fault == rest.fault
            }),
            forall|i: int|
                0 <= i < found.segments.len() ==> start <= (#[trigger] found.segments[i]).start
                    <= found.segments[i].end <= total,
        decreases total - pos,
    {
        let h: WideHeader = match read_box_header_at(input, pos, total) {
            Ok(h) => h,
            Err(e) => {
                assert(!read_failed(input, e) ==> found.segments =~= done);
                return Err(e);
            },
        };
        if h.kind == UUID {
            let muxl = match is_muxl_uuid_at(input, &h, total) {
                Ok(b) => b,
                Err(e) => {
                    return Err(e);
                },
            };
            if open && (!muxl || has_muxl) {
                proof {
                    let span = Range { start: opened, end: pos as int };
                    let rest = split_from(s, h.end as int, Some(pos as int), muxl);
                    assert(done + (seq![span] + rest.segments) =~= done.push(span) + rest.segments);
                    done = done.push(span);
                    assert(found.segments[closed as int] == span);
                }
                closed += 1;
                match count {
                    Some(c) => {
                        if closed >= c {
                            return Ok(pos);
                        }
                    },
                    None => {},
                }
                has_muxl = false;
                proof {
                    opened = pos as int;
                }
            }
            proof {
                if !open {
                    opened = pos as int;
                }
            }
            open = true;
            has_muxl = has_muxl || muxl;
        } else if !open {
            assert(found.segments =~= done);
            return Err(boundary_error(offset, h.kind));
        }
        pos = h.end;
    }
    let held: u64 = if open {
        closed + 1
    } else {
        closed
    };
    assert(found.segments.len() == held);
    assert(held > 0 ==> found.segments[held - 1].end == total);
    match count {
        Some(c) => {
            if held < c {
                let mut m = "requested ".to_string();
                push_decimal(&mut m, c);
                m.push_str(" segments from offset ");
                push_decimal(&mut m, offset);
                m.push_str(" but the stream held only ");
                push_decimal(&mut m, held);
                return Err(Error::InvalidMp4(m));
            }
        },
        None => {},
    }
    Ok(total)
}

/// Reads `count` canonical segments out of a storage wrapper, from `offset` on,
/// touching only their bytes.
///
/// The extents come from the boundary rule that splits a stream, so a caller
/// records only where a segment starts. `None` reads to the end of the stream, or, from
/// there on, to that of the input; a start inside a box is an error. The returned bytes
/// are verbatim.
pub fn read_segments_at<R: ReadAt + ?Sized>(
    input: &R,
    offset: SegmentOffset,
    count: Option<u64>,
) -> (r: Result<Vec<u8>, Error>)
    ensures
        match r {
            Ok(bytes) => segments_at(input.contents(), offset, count) matches Ok(range) && bytes@
                == bytes_of(input.contents(), range),
            Err(e) => {
                ||| read_failed(input, e)
                ||| segments_at(input.contents(), offset, count) matches Err(t) && e@
                    == ErrorView::InvalidMp4(t)
                ||| segments_at(input.contents(), offset, count) matches Ok(range) && range.end
                    - range.start > usize::MAX && e@ == ErrorView::InvalidMp4(
                    "segment span too large for this platform"@,
                )
            },
        },
{
    let total: u64 = match input.size() {
        Ok(n) => n,
        Err(e) => {
            return Err(Error::Io(e));
        },
    };
    let found = find_stream(input, total);
    let (base, value, stream): (u64, u64, u64) = match offset {
        SegmentOffset::Stream(o) => match found {
            Ok(span) => (span.start, o, span.end),
            Err(e) => {
                return Err(e);
            },
        },
        SegmentOffset::File(o) => match found {
            Ok(span) => (0, o, span.end),
            Err(Error::InvalidMp4(_)) => (0, o, total),
            Err(e) => {
                return Err(e);
            },
        },
    };
    proof {
        lemma_locate_bounds(input.contents(), 0);
    }
    if value > u64::MAX - base || base + value > total {
        let mut m = "segment offset ".to_string();
        push_decimal(&mut m, value);
        m.push_str(" runs past the end of the input (segment stream starts at ");
        push_decimal(&mut m, base);
        m.push_str(", input is ");
        push_decimal(&mut m, total);
        m.push_str(" bytes)");
        return Err(Error::InvalidMp4(m));
    }
    let start: u64 = base + value;
    let limit: u64 = if start < stream {
        stream
    } else {
        total
    };
    let end: u64 = match find_segments_end(input, limit, start, value, count) {
        Ok(end) => end,
        Err(e) => {
            return Err(e);
        },
    };
    if end - start > usize::MAX as u64 {
        return Err(invalid_mp4("segment span too large for this platform"));
    }
    let len: usize = (end - start) as usize;
    let mut buf: Vec<u8> = vec![0u8; len];
    match input.read_exact_at(start, buf.as_mut_slice()) {
        Err(e) => {
            return Err(Error::Io(e));
        },
        Ok(()) => {},
    }
    assert(buf@ =~= input.contents().subrange(start as int, end as int));
    Ok(buf)
}

proof fn lemma_locate_bounds(s: Seq<u8>, pos: int)
    requires
        0 <= pos,
    ensures
        locate(s, pos) matches Ok(r) ==> 0 <= r.start <= r.end <= s.len(),
    decreases s.len() - pos,
{
    if pos + 8 <= s.len() {
        if let Ok(b) = box_at(s, pos) {
            lemma_locate_bounds(s, b.end);
        }
    }
}

/// One canonical segment recovered from a storage wrapper.
pub struct Segment<'a> {
    /// The track that the segment belongs to, from its catalog.
    pub track_id: u32,
    /// The catalog carried in the segment's MUXL `uuid` box.
    pub catalog: Catalog,
    /// The bytes of the segment, verbatim.
    pub data: &'a [u8],
}

/// Whether `decode` gave `seg` its catalog, and the catalog its track.
pub open spec fn decoded<F: Fn(&[u8]) -> Result<Catalog, Error>>(decode: F, seg: Segment) -> bool {
    &&& call_ensures(decode, (seg.data,), Ok::<Catalog, Error>(seg.catalog))
    &&& seg.catalog.first_track() == Some(seg.track_id)
}

/// Whether `e` is what comes of a segment `data` that `decode` gives no usable
/// catalog for.
pub open spec fn undecoded<F: Fn(&[u8]) -> Result<Catalog, Error>>(
    decode: F,
    data: &[u8],
    e: Error,
) -> bool {
    ||| call_ensures(decode, (data,), Err::<Catalog, Error>(e))
    ||| exists|c: Catalog| #[trigger]
        call_ensures(decode, (data,), Ok::<Catalog, Error>(c)) && c.first_track() is None && e@
            == ErrorView::InvalidMp4("segment catalog describes no track"@)
}

/// The bytes of the canonical segments that lie in the wrapper `s`.
pub open spec fn wrapped_segments(s: Seq<u8>) -> Seq<Seq<u8>> {
    let stream = bytes_of(s, locate(s, 0)->Ok_0);
    split(stream).segments.map_values(|r: Range| bytes_of(stream, r))
}

/// Whether the wrapper `s` can be split into canonical segments.
pub open spec fn splits(s: Seq<u8>) -> bool {
    locate(s, 0) matches Ok(r) && split(bytes_of(s, r)).fault is None
}

/// Whether `e` reports why the wrapper `s` cannot be split.
pub open spec fn unsplit(s: Seq<u8>, e: Error) -> bool {
    match locate(s, 0) {
        Err(f) => e@ == ErrorView::InvalidMp4(fault_text(f)),
        Ok(r) => split(bytes_of(s, r)).fault matches Some(f) && e@ == ErrorView::InvalidMp4(
            fault_text(f),
        ),
    }
}

/// Whether `segs` are the first of the segments `all`, decoded.
pub open spec fn are_decoded<F: Fn(&[u8]) -> Result<Catalog, Error>>(
    decode: F,
    all: Seq<Seq<u8>>,
    segs: Seq<Segment>,
) -> bool {
    segs.len() <= all.len() && forall|i: int|
        0 <= i < segs.len() ==> (#[trigger] segs[i]).data@ == all[i] && decoded(decode, segs[i])
}

/// Whether every one of the segments `all` was decoded.
pub open spec fn all_decoded<F: Fn(&[u8]) -> Result<Catalog, Error>>(
    decode: F,
    all: Seq<Seq<u8>>,
) -> bool {
    exists|segs: Seq<Segment>| #[trigger]
        are_decoded(decode, all, segs) && segs.len() == all.len()
}

/// Whether `e` is what comes of the first of the segments `all` that cannot be decoded.
pub open spec fn decoding_stops<F: Fn(&[u8]) -> Result<Catalog, Error>>(
    decode: F,
    all: Seq<Seq<u8>>,
    e: Error,
) -> bool {
    exists|segs: Seq<Segment>, d: &[u8]| #[trigger]
        are_decoded(decode, all, segs) && segs.len() < all.len() && d@ == all[segs.len() as int]
            && #[trigger] undecoded(decode, d, e)
}

/// Whether `e` is why the wrapper `s` cannot be unwrapped: it has no segment stream; a
/// segment cannot be decoded, all before it being; or the stream cannot be split behind
/// segments that all can.
pub open spec fn unwrap_fails<F: Fn(&[u8]) -> Result<Catalog, Error>>(
    s: Seq<u8>,
    decode: F,
    e: Error,
) -> bool {
    match locate(s, 0) {
        Err(_) => unsplit(s, e),
        Ok(_) => {
            ||| decoding_stops(decode, wrapped_segments(s), e)
            ||| all_decoded(decode, wrapped_segments(s)) && unsplit(s, e)
        },
    }
}

/// Recovers the canonical segments from a bare segment stream, a fragmented MP4
/// or a flat MP4 alike.
///
/// `decode` reads the catalog out of a segment. A signing prefix stays with the
/// segment it precedes.
pub fn unwrap<'a, F: Fn(&[u8]) -> Result<Catalog, Error>>(bytes: &'a [u8], decode: &F) -> (r: Result<
    Vec<Segment<'a>>,
    Error,
>)
    requires
        forall|d: &[u8]| call_requires(*decode, (d,)),
    ensures
        match r {
            Ok(segs) => {
                &&& splits(bytes@)
                &&& segs@.map_values(|s: Segment| s.data@) == wrapped_segments(bytes@)
                &&& forall|i: int| 0 <= i < segs@.len() ==> decoded(*decode, #[trigger] segs@[i])
            },
            Err(e) => unwrap_fails(bytes@, *decode, e),
        },
{
    let span: Span = match locate_segment_stream(bytes) {
        Ok(s) => s,
        Err(e) => {
            return Err(e);
        },
    };
    let stream = slice_subrange(bytes, span.start, span.end);
    let scan = scan_segments(stream);
    let ghost all = wrapped_segments(bytes@);
    let mut segs: Vec<Segment<'a>> = Vec::new();
    let n: usize = scan.segments.len();
    let mut i: usize = 0;
    while i < n
        invariant
            i <= n,
            n == scan.segments@.len(),
            forall|d: &[u8]| call_requires(*decode, (d,)),
            locate(bytes@, 0) is Ok,
            stream@ == bytes_of(bytes@, locate(bytes@, 0)->Ok_0),
            ranges(scan.segments@) == split(stream@).segments,
            all == wrapped_segments(bytes@),
            all.len() == n,
            forall|j: int|
                0 <= j < scan.segments@.len() ==> (#[trigger] scan.segments@[j]).start
                    <= scan.segments@[j].end <= stream@.len(),
            segs@.len() == i,
            are_decoded(*decode, all, segs@),
        decreases n - i,
    {
        let part: Span = scan.segments[i];
        let data = slice_subrange(stream, part.start, part.end);
        proof {
            assert(ranges(scan.segments@)[i as int] == part@);
            assert(data@ == all[i as int]);
        }
        let catalog = match (*decode)(data) {
            Ok(c) => c,
            Err(e) => {
                assert(undecoded(*decode, data, e));
                return Err(e);
            },
        };
        let track_id: u32 = match catalog.lead_track() {
            Some(id) => id,
            None => {
                let e = invalid_mp4("segment catalog describes no track");
                assert(undecoded(*decode, data, e));
                return Err(e);
            },
        };
        segs.push(Segment { track_id, catalog, data });
        i += 1;
    }
    assert(segs@.map_values(|s: Segment| s.data@) =~= all);
    match scan.error {
        Some(e) => Err(e),
        None => Ok(segs),
    }
}

/// The catalogs in `cats`, folded one after the other.
pub open spec fn aggregated(cats: Seq<CatalogView>) -> CatalogView
    decreases cats.len(),
{
    if cats.len() == 0 {
        empty_catalog()
    } else {
        merged(aggregated(cats.drop_last()), cats.last())
    }
}

/// The contents of the catalogs of `segs`.
pub open spec fn catalogs(segs: Seq<Segment>) -> Seq<CatalogView> {
    segs.map_values(|s: Segment| s.catalog@)
}

/// Merges the single-track catalogs of `segments` into one catalog of all
/// tracks, which the header of a wrapper around them is built from.
pub fn aggregate_catalog(segments: &[Segment]) -> (r: Catalog)
    ensures
        r@ == aggregated(catalogs(segments@)),
{
    let mut agg = Catalog::default();
    let ghost all = catalogs(segments@);
    let mut i: usize = 0;
    assert(all.take(0) =~= seq![]);
    while i < segments.len()
        invariant
            i <= segments@.len(),
            all == catalogs(segments@),
            agg@ == aggregated(all.take(i as int)),
        decreases segments@.len() - i,
    {
        merge_segment_catalog(&mut agg, &segments[i].catalog);
        i += 1;
        assert(all.take(i as int).drop_last() =~= all.take(i - 1));
    }
    assert(all.take(i as int) =~= all);
    agg
}

/// The video rendition `name` of the last of `cats` that has it.
pub open spec fn last_video(cats: Seq<CatalogView>, name: Seq<char>) -> Option<VideoConfigView>
    decreases cats.len(),
{
    if cats.len() == 0 {
        None
    } else {
        match cats.last().video {
            Some(v) => if v.renditions.contains_key(name) {
                Some(v.renditions[name])
            } else {
                last_video(cats.drop_last(), name)
            },
            None => last_video(cats.drop_last(), name),
        }
    }
}

/// The audio rendition `name` of the last of `cats` that has it.
pub open spec fn last_audio(cats: Seq<CatalogView>, name: Seq<char>) -> Option<AudioConfigView>
    decreases cats.len(),
{
    if cats.len() == 0 {
        None
    } else {
        match cats.last().audio {
            Some(a) => if a.contains_key(name) {
                Some(a[name])
            } else {
                last_audio(cats.drop_last(), name)
            },
            None => last_audio(cats.drop_last(), name),
        }
    }
}

/// The video rendition `name` of a catalog.
pub open spec fn video_named(c: CatalogView, name: Seq<char>) -> Option<VideoConfigView> {
    match c.video {
        Some(v) => if v.renditions.contains_key(name) {
            Some(v.renditions[name])
        } else {
            None
        },
        None => None,
    }
}

/// The audio rendition `name` of a catalog.
pub open spec fn audio_named(c: CatalogView, name: Seq<char>) -> Option<AudioConfigView> {
    match c.audio {
        Some(a) => if a.contains_key(name) {
            Some(a[name])
        } else {
            None
        },
        None => None,
    }
}

/// The catalog of several catalogs is their union by name: it has a rendition where
/// one of them does, as the last of them gives it.
pub proof fn law_aggregate_is_union(cats: Seq<CatalogView>, name: Seq<char>)
    ensures
        video_named(aggregated(cats), name) == last_video(cats, name),
        audio_named(aggregated(cats), name) == last_audio(cats, name),
    decreases cats.len(),
{
    if cats.len() > 0 {
        law_aggregate_is_union(cats.drop_last(), name);
        if let Some(v) = cats.last().video {
            assert(v.renditions.dom().contains(name) == v.renditions.contains_key(name));
        }
        if let Some(a) = cats.last().audio {
            assert(a.dom().contains(name) == a.contains_key(name));
        }
    }
}

/// Whether the catalog `c` has a rendition of video.
pub open spec fn renders(c: CatalogView) -> bool {
    c.video matches Some(v) && v.renditions.dom() != Set::<Seq<char>>::empty()
}

/// Whether one of `cats` has a rendition of video.
pub open spec fn some_render(cats: Seq<CatalogView>) -> bool {
    exists|i: int| 0 <= i < cats.len() && renders(#[trigger] cats[i])
}

/// Whether one of `cats` has a rendition of audio.
pub open spec fn some_sound(cats: Seq<CatalogView>) -> bool {
    exists|i: int|
        0 <= i < cats.len() && ((#[trigger] cats[i]).audio matches Some(a) && a.dom() != Set::<
            Seq<char>,
        >::empty())
}

/// Whether the catalog `c` says something of how video is shown.
pub open spec fn shows(c: CatalogView) -> bool {
    display_of(c) is Some || rotation_of(c) is Some || flip_of(c) is Some
}

/// Whether none of `cats` says how video is shown before one of them, or itself, has a
/// rendition of it.
pub open spec fn shown_is_rendered(cats: Seq<CatalogView>) -> bool {
    forall|i: int|
        0 <= i < cats.len() && shows(#[trigger] cats[i]) ==> some_render(cats.take(i + 1))
}

proof fn lemma_aggregated_is_there(cats: Seq<CatalogView>)
    ensures
        aggregated(cats).video is Some == some_render(cats),
        aggregated(cats).audio is Some == some_sound(cats),
    decreases cats.len(),
{
    if cats.len() > 0 {
        let before = cats.drop_last();
        let n = cats.len() - 1;
        lemma_aggregated_is_there(before);
        assert(cats[n] == cats.last());
        assert forall|i: int| 0 <= i < n implies before[i] == cats[i] by {
        }
        if some_render(before) {
            let i = choose|i: int| 0 <= i < before.len() && renders(#[trigger] before[i]);
            assert(renders(cats[i]));
        }
        if some_sound(before) {
            let i = choose|i: int|
                0 <= i < before.len() && ((#[trigger] before[i]).audio matches Some(a) && a.dom()
                    != Set::<Seq<char>>::empty());
            assert(cats[i].audio == before[i].audio);
        }
        if some_render(cats) && !renders(cats.last()) {
            let i = choose|i: int| 0 <= i < cats.len() && renders(#[trigger] cats[i]);
            assert(renders(before[i]));
        }
        if some_sound(cats) && !some_sound(before) {
            let i = choose|i: int|
                0 <= i < cats.len() && ((#[trigger] cats[i]).audio matches Some(a) && a.dom()
                    != Set::<Seq<char>>::empty());
            if i < n {
                assert(before[i].audio == cats[i].audio);
            }
        }
    }
}

/// The first of `s` that is given.
pub open spec fn first_given<A>(s: Seq<Option<A>>) -> Option<A>
    decreases s.len(),
{
    if s.len() == 0 {
        None
    } else {
        match s[0] {
            Some(a) => Some(a),
            None => first_given(s.skip(1)),
        }
    }
}

/// The size at which a catalog says that video is shown.
pub open spec fn display_of(c: CatalogView) -> Option<Display> {
    match c.video {
        Some(v) => v.display,
        None => None,
    }
}

/// The rotation with which a catalog says that video is shown.
pub open spec fn rotation_of(c: CatalogView) -> Option<u64> {
    match c.video {
        Some(v) => v.rotation,
        None => None,
    }
}

/// Whether a catalog says that video is shown flipped.
pub open spec fn flip_of(c: CatalogView) -> Option<bool> {
    match c.video {
        Some(v) => v.flip,
        None => None,
    }
}

proof fn lemma_first_given_last<A>(s: Seq<Option<A>>)
    requires
        s.len() > 0,
    ensures
        first_given(s) == first_of(first_given(s.drop_last()), s.last()),
    decreases s.len(),
{
    if s.len() > 1 {
        lemma_first_given_last(s.skip(1));
        assert(s.skip(1).drop_last() =~= s.drop_last().skip(1));
        assert(s.drop_last()[0] == s[0]);
    } else {
        assert(s.skip(1) =~= seq![]);
        assert(s.drop_last() =~= seq![]);
    }
}

proof fn lemma_first_given_joined<A>(a: Seq<Option<A>>, b: Seq<Option<A>>)
    ensures
        first_given(a + b) == first_of(first_given(a), first_given(b)),
    decreases a.len(),
{
    if a.len() == 0 {
        assert(a + b =~= b);
    } else {
        lemma_first_given_joined(a.skip(1), b);
        assert((a + b).skip(1) =~= a.skip(1) + b);
    }
}

/// The catalog of several catalogs shows video as the first of them says that says
/// something: its size, its rotation and whether it is flipped, each on its own.
pub proof fn law_aggregate_shows_the_first(cats: Seq<CatalogView>)
    requires
        shown_is_rendered(cats),
    ensures
        ({
            let c = aggregated(cats);
            &&& display_of(c) == first_given(cats.map_values(|x: CatalogView| display_of(x)))
            &&& rotation_of(c) == first_given(cats.map_values(|x: CatalogView| rotation_of(x)))
            &&& flip_of(c) == first_given(cats.map_values(|x: CatalogView| flip_of(x)))
        }),
    decreases cats.len(),
{
    if cats.len() > 0 {
        let before = cats.drop_last();
        let n = cats.len() - 1;
        assert forall|i: int| 0 <= i < before.len() && shows(#[trigger] before[i]) implies some_render(
            before.take(i + 1),
        ) by {
            assert(before[i] == cats[i]);
            assert(before.take(i + 1) =~= cats.take(i + 1));
        }
        law_aggregate_shows_the_first(before);
        assert(cats[n] == cats.last());
        assert(cats.take(n + 1) =~= cats);
        lemma_aggregated_is_there(before);
        if shows(cats.last()) && !renders(cats.last()) {
            let i = choose|i: int| 0 <= i < cats.len() && renders(#[trigger] cats[i]);
            assert(renders(before[i]));
        }
        let d = cats.map_values(|x: CatalogView| display_of(x));
        let r = cats.map_values(|x: CatalogView| rotation_of(x));
        let f = cats.map_values(|x: CatalogView| flip_of(x));
        lemma_first_given_last(d);
        lemma_first_given_last(r);
        lemma_first_given_last(f);
        assert(d.drop_last() =~= before.map_values(|x: CatalogView| display_of(x)));
        assert(r.drop_last() =~= before.map_values(|x: CatalogView| rotation_of(x)));
        assert(f.drop_last() =~= before.map_values(|x: CatalogView| flip_of(x)));
    }
}

proof fn lemma_last_joined(a: Seq<CatalogView>, b: Seq<CatalogView>, name: Seq<char>)
    ensures
        last_video(a + b, name) == match last_video(b, name) {
            Some(v) => Some(v),
            None => last_video(a, name),
        },
        last_audio(a + b, name) == match last_audio(b, name) {
            Some(v) => Some(v),
            None => last_audio(a, name),
        },
    decreases b.len(),
{
    if b.len() == 0 {
        assert(a + b =~= a);
    } else {
        lemma_last_joined(a, b.drop_last(), name);
        assert((a + b).drop_last() =~= a + b.drop_last());
    }
}

proof fn lemma_twice_is_there(cats: Seq<CatalogView>)
    ensures
        some_render(cats + cats) == some_render(cats),
        some_sound(cats + cats) == some_sound(cats),
{
    let twice = cats + cats;
    let n = cats.len() as int;
    assert forall|i: int| 0 <= i < twice.len() implies twice[i] == cats[if i < n {
        i
    } else {
        i - n
    }] by {
    }
    if some_render(cats) {
        let i = choose|i: int| 0 <= i < cats.len() && renders(#[trigger] cats[i]);
        assert(renders(twice[i]));
    }
    if some_render(twice) {
        let i = choose|i: int| 0 <= i < twice.len() && renders(#[trigger] twice[i]);
        assert(renders(cats[if i < n {
            i
        } else {
            i - n
        }]));
    }
    if some_sound(cats) {
        let i = choose|i: int|
            0 <= i < cats.len() && ((#[trigger] cats[i]).audio matches Some(a) && a.dom() != Set::<
                Seq<char>,
            >::empty());
        assert(twice[i].audio == cats[i].audio);
    }
    if some_sound(twice) {
        let i = choose|i: int|
            0 <= i < twice.len() && ((#[trigger] twice[i]).audio matches Some(a) && a.dom() != Set::<
                Seq<char>,
            >::empty());
        assert(cats[if i < n {
            i
        } else {
            i - n
        }].audio == twice[i].audio);
    }
}

proof fn lemma_twice_is_shown(cats: Seq<CatalogView>)
    requires
        shown_is_rendered(cats),
    ensures
        shown_is_rendered(cats + cats),
        display_of(aggregated(cats + cats)) == display_of(aggregated(cats)),
        rotation_of(aggregated(cats + cats)) == rotation_of(aggregated(cats)),
        flip_of(aggregated(cats + cats)) == flip_of(aggregated(cats)),
{
    let twice = cats + cats;
    let n = cats.len() as int;
    assert forall|i: int| 0 <= i < twice.len() && shows(#[trigger] twice[i]) implies some_render(
        twice.take(i + 1),
    ) by {
        let k = if i < n {
            i
        } else {
            i - n
        };
        assert(twice[i] == cats[k]);
        let short = cats.take(k + 1);
        assert(some_render(short));
        let j = choose|j: int| 0 <= j < short.len() && renders(#[trigger] short[j]);
        assert(twice.take(i + 1)[j] == short[j]);
    }
    law_aggregate_shows_the_first(cats);
    law_aggregate_shows_the_first(twice);
    let d = cats.map_values(|x: CatalogView| display_of(x));
    let r = cats.map_values(|x: CatalogView| rotation_of(x));
    let f = cats.map_values(|x: CatalogView| flip_of(x));
    lemma_first_given_joined(d, d);
    lemma_first_given_joined(r, r);
    lemma_first_given_joined(f, f);
    assert(twice.map_values(|x: CatalogView| display_of(x)) =~= d + d);
    assert(twice.map_values(|x: CatalogView| rotation_of(x)) =~= r + r);
    assert(twice.map_values(|x: CatalogView| flip_of(x)) =~= f + f);
}

/// Catalogs that were folded in already change nothing, where none says how video is
/// shown before a rendition of it.
pub proof fn law_aggregate_is_idempotent(cats: Seq<CatalogView>)
    requires
        shown_is_rendered(cats),
    ensures
        aggregated(cats + cats) == aggregated(cats),
{
    let twice = cats + cats;
    let a = aggregated(cats);
    let b = aggregated(twice);
    lemma_aggregated_is_there(cats);
    lemma_aggregated_is_there(twice);
    lemma_twice_is_there(cats);
    lemma_twice_is_shown(cats);
    assert forall|name: Seq<char>|
        video_named(b, name) == #[trigger] video_named(a, name) && audio_named(b, name)
            == audio_named(a, name) by {
        law_aggregate_is_union(cats, name);
        law_aggregate_is_union(twice, name);
        lemma_last_joined(cats, cats, name);
    }
    if let Some(v) = a.video {
        let w = b.video->Some_0;
        assert forall|name: Seq<char>|
            w.renditions.contains_key(name) == #[trigger] v.renditions.contains_key(name) && (
            v.renditions.contains_key(name) ==> w.renditions[name] == v.renditions[name]) by {
            assert(video_named(b, name) == video_named(a, name));
        }
        lemma_same_map(w.renditions, v.renditions);
        assert(v == w);
    }
    if let Some(v) = a.audio {
        let w = b.audio->Some_0;
        assert forall|name: Seq<char>|
            w.contains_key(name) == #[trigger] v.contains_key(name) && (v.contains_key(name)
                ==> w[name] == v[name]) by {
            assert(video_named(b, name) == video_named(a, name));
        }
        lemma_same_map(w, v);
    }
}

proof fn lemma_same_map<V>(a: Map<Seq<char>, V>, b: Map<Seq<char>, V>)
    requires
        forall|k: Seq<char>|
            a.contains_key(k) == #[trigger] b.contains_key(k) && (b.contains_key(k) ==> a[k]
                == b[k]),
    ensures
        a == b,
{
    assert(a.dom() =~= b.dom()) by {
        assert forall|k: Seq<char>| a.dom().contains(k) == b.dom().contains(k) by {
            assert(b.contains_key(k) == b.dom().contains(k));
        }
    }
    assert forall|k: Seq<char>| a.dom().contains(k) implies a[k] == b[k] by {
        assert(b.contains_key(k));
    }
    assert(a =~= b);
}

} // verus!
