//! Concatenation: several MUXL files, one after the other, as one stream of
//! events.
//!
//! Fragmented and flat MP4 files are taken alike. An `mdat` box without a `moof`
//! before it is the envelope of a flat MP4: its header is dropped, and the
//! fragments inside come by as if they stood in the open. What needs the codec
//! boxes (the catalog of a `moov`, the frames of a fragment) belongs to the
//! caller.

use std::collections::BTreeMap;

use vstd::prelude::*;
use vstd::slice::{slice_subrange, slice_to_vec};

use crate::boxes::{be32, be64, read_be32, read_be64, FTYP, MDAT, MOOF, MOOV, UUID};
use crate::catalog::{Catalog, CatalogView};
use crate::cbor::SegmenterEvent;
use crate::error::{Error, ErrorView};
use crate::keymap::{Duplicate, Same};
use crate::segment::{
    begins_group, bufs_view, flush_track_bufs, frame_second, frames_view, gop_of, has_id,
    is_video_key, live, map_over, note_timescales, record_frame, recorded, sat32, sat64, second_of,
    total_bytes, track_scales, video_ids, video_track_ids, BufView, Frame, FrameView, GopSegment,
    GopView, SamplesView, TrackBuf, TrackSamples,
};
use crate::tracks::{keys_of, lists, sorted};

verus! {

/// Where a track stands: the decode time and the sequence number of its next
/// fragment.
#[derive(Clone, Copy, Debug, PartialEq, Eq)]
pub struct Clock {
    pub decode_time: u64,
    pub sequence: u32,
}

/// The frames of one fragment, and where the tracks stand after it.
#[derive(Debug)]
pub struct Minted {
    pub frames: Vec<Frame>,
    pub clocks: BTreeMap<u32, Clock>,
}

/// What the caller does for a [`Concatenator`].
pub struct ConcatHost<O, I, C, M> {
    /// Reads the catalog of a `moov` box.
    pub read_catalog: O,
    /// Makes the init segment of a catalog.
    pub build_init: I,
    /// Refuses a `moof` box that cannot be read.
    pub check_moof: C,
    /// Makes the frames of a fragment: of its `moov`, its `moof`, and the payload
    /// of its `mdat`, the tracks standing where they do.
    pub mint: M,
}

/// The header of the box at the front of the input.
pub struct BoxHead {
    pub size: int,
    pub kind: int,
    /// How long the header is.
    pub header: int,
}

/// The header at the front of `buf`, once it is there. A box without a size is
/// never complete; a long size of 0 is one.
pub open spec fn front_box(buf: Seq<u8>) -> Option<BoxHead> {
    if buf.len() < 8 || be32(buf, 0) == 0 {
        None
    } else if be32(buf, 0) == 1 {
        if buf.len() < 16 {
            None
        } else {
            Some(BoxHead { size: be64(buf, 8), kind: be32(buf, 4), header: 16 })
        }
    } else {
        Some(BoxHead { size: be32(buf, 0), kind: be32(buf, 4), header: 8 })
    }
}

/// A file whose `moov` has come by.
pub struct StreamView {
    pub moov: Seq<u8>,
    pub clocks: Map<u32, Clock>,
    /// Whether a video keyframe has come by.
    pub seen_key: bool,
    /// The second that the current GOP began in.
    pub begun: Option<u64>,
    /// The `moof` whose `mdat` has not come by yet.
    pub moof: Option<Seq<u8>>,
}

/// The state of a [`Concatenator`].
pub struct ConcatView {
    /// The input not yet consumed.
    pub buf: Seq<u8>,
    /// The catalog of the last init segment.
    pub catalog: Option<CatalogView>,
    /// The `uuid` box of the current file.
    pub uuid: Option<Seq<u8>>,
    /// The `uuid` box of a file whose `moov` has not come by yet.
    pub pending_uuid: Option<Seq<u8>>,
    /// The current file; none before its `moov`.
    pub stream: Option<StreamView>,
    pub scales: Map<u32, u32>,
    pub video: Seq<u32>,
    /// What is gathered since the last cut.
    pub bufs: Map<u32, BufView>,
    /// The number of the last GOP.
    pub number: u32,
    /// How much of the envelope of a flat MP4 is still to come.
    pub envelope: Option<u64>,
}

/// Contents of a [`SegmenterEvent`].
pub enum EventView {
    Init { catalog: CatalogView, data: Seq<u8> },
    Segment(GopView),
}

impl View for SegmenterEvent {
    type V = EventView;

    open spec fn view(&self) -> EventView {
        match self {
            SegmenterEvent::InitSegment { catalog, data } => EventView::Init {
                catalog: catalog@,
                data: data@,
            },
            SegmenterEvent::Segment(g) => EventView::Segment(g@),
        }
    }
}

/// Contents of the events in `v`.
pub open spec fn events_view(v: Seq<SegmenterEvent>) -> Seq<EventView> {
    v.map_values(|e: SegmenterEvent| e@)
}

/// `s` with its samples `n` bytes further on.
pub open spec fn moved(s: SamplesView, n: int) -> SamplesView {
    SamplesView { offsets: s.offsets.map_values(|o: u64| sat64(o + n)), ..s }
}

/// `g` with `prefix` put before the bytes of every track.
pub open spec fn prefixed(g: GopView, prefix: Seq<u8>) -> GopView {
    let tracks = g.tracks.map_values(|d: Seq<u8>| prefix + d);
    GopView {
        tracks,
        samples: g.samples.map_values(|s: SamplesView| moved(s, prefix.len() as int)),
        body_size: sat64(total_bytes(sorted(tracks.dom()), tracks)),
        ..g
    }
}

/// The GOP that is cut next, if anything is gathered: every track begins with
/// the `uuid` box of its file.
pub open spec fn next_gop(st: ConcatView) -> Option<GopView> {
    match gop_of(st.bufs, st.scales, st.video, sat32(st.number + 1)) {
        None => None,
        Some(g) => match st.uuid {
            None => Some(g),
            Some(u) => Some(prefixed(g, u)),
        },
    }
}

/// `st` after a cut.
pub open spec fn after_cut(st: ConcatView) -> ConcatView {
    match next_gop(st) {
        None => st,
        Some(_) => ConcatView { bufs: Map::empty(), number: sat32(st.number + 1), ..st },
    }
}

/// The event of a cut.
pub open spec fn cut_event(st: ConcatView) -> Seq<EventView> {
    match next_gop(st) {
        None => seq![],
        Some(g) => seq![EventView::Segment(g)],
    }
}

/// What the caller was asked, and what it answered.
pub enum Exchange {
    Catalog(Seq<u8>, Result<Catalog, Error>),
    Init(Catalog, Result<Vec<u8>, Error>),
    Moof(Seq<u8>, Result<(), Error>),
    Mint {
        moov: Seq<u8>,
        moof: Seq<u8>,
        payload: Seq<u8>,
        clocks: Map<u32, Clock>,
        answer: Result<Minted, Error>,
    },
}

/// What a box leads to.
pub enum Outcome {
    /// The exchanges are not those that the box asks for.
    Mismatch,
    Failed { state: ConcatView, error: Error },
    /// The box has no bytes to read; the text says of which kind it is.
    Refused { state: ConcatView, text: Seq<char> },
    Done { state: ConcatView, events: Seq<EventView> },
}

/// The state before the `moov` of the next file.
pub open spec fn awaiting_init(st: ConcatView, pending_uuid: Option<Seq<u8>>) -> ConcatView {
    ConcatView { pending_uuid, envelope: None, stream: None, ..after_cut(st) }
}

/// The state once the `moov` box `data` of a file with the catalog `c` has come
/// by.
pub open spec fn opened(st: ConcatView, data: Seq<u8>, c: Catalog) -> ConcatView {
    ConcatView {
        catalog: Some(c@),
        uuid: st.pending_uuid,
        pending_uuid: None,
        envelope: None,
        scales: map_over(Map::empty(), track_scales(&c)),
        video: video_ids(&c),
        stream: Some(
            StreamView {
                moov: data,
                clocks: Map::empty(),
                seen_key: false,
                begun: None,
                moof: None,
            },
        ),
        ..st
    }
}

/// Takes a `moov` box. An init segment is due where the catalog is not that of
/// the last one.
pub open spec fn take_moov(st: ConcatView, data: Seq<u8>, log: Seq<Exchange>) -> Outcome {
    let cut = after_cut(st);
    if log.len() == 0 {
        Outcome::Mismatch
    } else {
        match log[0] {
            Exchange::Catalog(q, answer) => if q != data {
                Outcome::Mismatch
            } else {
                match answer {
                    Err(error) => if log.len() == 1 {
                        Outcome::Failed { state: cut, error }
                    } else {
                        Outcome::Mismatch
                    },
                    Ok(c) => if st.catalog == Some(c@) {
                        if log.len() == 1 {
                            Outcome::Done { state: opened(cut, data, c), events: cut_event(st) }
                        } else {
                            Outcome::Mismatch
                        }
                    } else if log.len() == 2 {
                        match log[1] {
                            Exchange::Init(asked, answer) => if asked != c {
                                Outcome::Mismatch
                            } else {
                                match answer {
                                    Err(error) => Outcome::Failed { state: cut, error },
                                    Ok(init) => Outcome::Done {
                                        state: opened(cut, data, c),
                                        events: cut_event(st) + seq![
                                            EventView::Init { catalog: c@, data: init@ },
                                        ],
                                    },
                                }
                            },
                            _ => Outcome::Mismatch,
                        }
                    } else {
                        Outcome::Mismatch
                    },
                }
            },
            _ => Outcome::Mismatch,
        }
    }
}

/// Takes a `moof` box.
pub open spec fn take_moof(st: ConcatView, data: Seq<u8>, log: Seq<Exchange>) -> Outcome {
    match st.stream {
        None => if log.len() == 0 {
            Outcome::Done { state: st, events: seq![] }
        } else {
            Outcome::Mismatch
        },
        Some(stream) => if log.len() != 1 {
            Outcome::Mismatch
        } else {
            match log[0] {
                Exchange::Moof(q, answer) => if q != data {
                    Outcome::Mismatch
                } else {
                    match answer {
                        Err(error) => Outcome::Failed { state: st, error },
                        Ok(_) => Outcome::Done {
                            state: ConcatView {
                                stream: Some(StreamView { moof: Some(data), ..stream }),
                                ..st
                            },
                            events: seq![],
                        },
                    }
                },
                _ => Outcome::Mismatch,
            }
        },
    }
}

/// The state and the events after the frames `fs`. A frame that begins a group
/// cuts.
pub open spec fn after_frames(st: ConcatView, fs: Seq<FrameView>) -> (ConcatView, Seq<EventView>)
    decreases fs.len(),
{
    if fs.len() == 0 {
        (st, seq![])
    } else {
        let (s, evs) = after_frames(st, fs.drop_last());
        let f = fs.last();
        let stream = s.stream->Some_0;
        let key = is_video_key(f, s.video);
        let cuts = begins_group(f, stream.seen_key, stream.begun, s.scales, s.video);
        let c = if cuts {
            after_cut(s)
        } else {
            s
        };
        (
            ConcatView {
                stream: Some(
                    StreamView {
                        seen_key: stream.seen_key || key,
                        begun: if cuts || stream.begun is None {
                            Some(second_of(f, s.scales))
                        } else {
                            stream.begun
                        },
                        ..stream
                    },
                ),
                bufs: recorded(c.bufs, f),
                ..c
            },
            if cuts {
                evs + cut_event(s)
            } else {
                evs
            },
        )
    }
}

/// The payload of the `mdat` box `data`. A box past the range of the short size
/// has the long header; one shorter than its header has no payload.
pub open spec fn payload_of(data: Seq<u8>) -> Seq<u8> {
    if data.len() > u32::MAX {
        data.skip(16)
    } else if data.len() >= 8 {
        data.skip(8)
    } else {
        seq![]
    }
}

/// Takes an `mdat` box that is no envelope.
pub open spec fn take_mdat(st: ConcatView, data: Seq<u8>, log: Seq<Exchange>) -> Outcome {
    let due = st.stream matches Some(stream) && stream.moof is Some;
    if !due {
        if log.len() == 0 {
            Outcome::Done { state: st, events: seq![] }
        } else {
            Outcome::Mismatch
        }
    } else if log.len() != 1 {
        Outcome::Mismatch
    } else {
        let stream = st.stream->Some_0;
        let taken = StreamView { moof: None, ..stream };
        match log[0] {
            Exchange::Mint { moov, moof, payload, clocks, answer } => if moov != stream.moov
                || Some(moof) != stream.moof || payload != payload_of(data) || clocks
                != stream.clocks {
                Outcome::Mismatch
            } else {
                match answer {
                    Err(error) => Outcome::Failed {
                        state: ConcatView { stream: Some(taken), ..st },
                        error,
                    },
                    Ok(minted) => {
                        let (state, events) = after_frames(
                            ConcatView {
                                stream: Some(StreamView { clocks: minted.clocks@, ..taken }),
                                ..st
                            },
                            frames_view(minted.frames@),
                        );
                        Outcome::Done { state, events }
                    },
                }
            },
            _ => Outcome::Mismatch,
        }
    }
}

/// Takes the box `data`, already consumed.
pub open spec fn take_box(st: ConcatView, kind: int, data: Seq<u8>, log: Seq<Exchange>) -> Outcome {
    if kind == MOOV {
        take_moov(st, data, log)
    } else if kind == MOOF {
        take_moof(st, data, log)
    } else if kind == MDAT {
        take_mdat(st, data, log)
    } else if log.len() != 0 {
        Outcome::Mismatch
    } else if kind == FTYP {
        Outcome::Done { state: awaiting_init(st, None), events: cut_event(st) }
    } else if kind == UUID {
        if st.stream is None {
            Outcome::Done {
                state: ConcatView { pending_uuid: Some(data), ..st },
                events: seq![],
            }
        } else {
            Outcome::Done { state: awaiting_init(st, Some(data)), events: cut_event(st) }
        }
    } else {
        Outcome::Done { state: st, events: seq![] }
    }
}

/// Counts a box of `size` bytes against the envelope. The end of the envelope
/// cuts.
pub open spec fn counted(st: ConcatView, size: int) -> ConcatView {
    match st.envelope {
        None => st,
        Some(left) => if left <= size {
            after_cut(ConcatView { envelope: None, ..st })
        } else {
            ConcatView { envelope: Some((left - size) as u64), ..st }
        },
    }
}

/// The event of counting a box of `size` bytes.
pub open spec fn counted_event(st: ConcatView, size: int) -> Seq<EventView> {
    match st.envelope {
        None => seq![],
        Some(left) => if left <= size {
            cut_event(st)
        } else {
            seq![]
        },
    }
}

/// Whether the box `h` is the envelope of a flat MP4.
pub open spec fn is_envelope(st: ConcatView, h: BoxHead) -> bool {
    h.kind == MDAT && (st.stream matches Some(stream) && stream.moof is None)
}

/// Whether the box `h` is refused for its size of 0: a `moov`, or a `moof` of a file
/// whose `moov` has come by. Any other such box is waited for.
pub open spec fn is_refused(st: ConcatView, h: BoxHead) -> bool {
    h.size == 0 && (h.kind == MOOV || (h.kind == MOOF && st.stream is Some))
}

/// The refusal of a box of size 0. A `moov` cuts before it is read.
pub open spec fn refusal(st: ConcatView, h: BoxHead) -> Outcome {
    if h.kind == MOOV {
        Outcome::Refused { state: after_cut(st), text: "empty moov header"@ }
    } else {
        Outcome::Refused { state: st, text: "empty moof header"@ }
    }
}

/// Whether nothing more can be taken before more input has come.
pub open spec fn at_rest(st: ConcatView) -> bool {
    match front_box(st.buf) {
        None => true,
        Some(h) => !is_envelope(st, h) && !is_refused(st, h) && (st.buf.len() < h.size || h.size
            == 0),
    }
}

/// Takes the box, or the envelope header, at the front of the input.
pub open spec fn step(st: ConcatView, log: Seq<Exchange>) -> Outcome {
    if at_rest(st) {
        Outcome::Mismatch
    } else {
        let h = front_box(st.buf)->Some_0;
        if is_refused(st, h) {
            if log.len() == 0 {
                refusal(st, h)
            } else {
                Outcome::Mismatch
            }
        } else if is_envelope(st, h) {
            if log.len() == 0 {
                Outcome::Done {
                    state: ConcatView {
                        buf: st.buf.skip(h.header),
                        envelope: Some(
                            if h.size < h.header {
                                0
                            } else {
                                (h.size - h.header) as u64
                            },
                        ),
                        ..st
                    },
                    events: seq![],
                }
            } else {
                Outcome::Mismatch
            }
        } else {
            let rest = ConcatView { buf: st.buf.skip(h.size), ..st };
            match take_box(rest, h.kind, st.buf.take(h.size), log) {
                Outcome::Done { state, events } => Outcome::Done {
                    state: counted(state, h.size),
                    events: events + counted_event(state, h.size),
                },
                other => other,
            }
        }
    }
}

/// Takes as many boxes as `logs` has entries.
pub open spec fn steps(st: ConcatView, logs: Seq<Seq<Exchange>>) -> Outcome
    decreases logs.len(),
{
    if logs.len() == 0 {
        Outcome::Done { state: st, events: seq![] }
    } else {
        match steps(st, logs.drop_last()) {
            Outcome::Done { state, events: before } => match step(state, logs.last()) {
                Outcome::Done { state: next, events } => Outcome::Done {
                    state: next,
                    events: before + events,
                },
                other => other,
            },
            other => Outcome::Mismatch,
        }
    }
}

/// Whether the caller answered as in `x`.
pub open spec fn answered<
    O: Fn(&[u8]) -> Result<Catalog, Error>,
    I: Fn(&Catalog) -> Result<Vec<u8>, Error>,
    C: Fn(&[u8]) -> Result<(), Error>,
    M: Fn(&[u8], &[u8], &[u8], &BTreeMap<u32, Clock>) -> Result<Minted, Error>,
>(host: ConcatHost<O, I, C, M>, x: Exchange) -> bool {
    match x {
        Exchange::Catalog(q, r) => exists|d: &[u8]|
            d@ == q && #[trigger] call_ensures(host.read_catalog, (d,), r),
        Exchange::Init(c, r) => call_ensures(host.build_init, (&c,), r),
        Exchange::Moof(q, r) => exists|d: &[u8]|
            d@ == q && #[trigger] call_ensures(host.check_moof, (d,), r),
        Exchange::Mint { moov, moof, payload, clocks, answer } => exists|
            a: &[u8],
            b: &[u8],
            p: &[u8],
            t: &BTreeMap<u32, Clock>,
        |
            a@ == moov && b@ == moof && p@ == payload && t@ == clocks && #[trigger] call_ensures(
                host.mint,
                (a, b, p, t),
                answer,
            ),
    }
}

/// Whether the caller answered as in all of `log`.
pub open spec fn all_answered<
    O: Fn(&[u8]) -> Result<Catalog, Error>,
    I: Fn(&Catalog) -> Result<Vec<u8>, Error>,
    C: Fn(&[u8]) -> Result<(), Error>,
    M: Fn(&[u8], &[u8], &[u8], &BTreeMap<u32, Clock>) -> Result<Minted, Error>,
>(host: ConcatHost<O, I, C, M>, log: Seq<Exchange>) -> bool {
    forall|i: int| 0 <= i < log.len() ==> answered(host, #[trigger] log[i])
}

/// Whether the caller takes whatever it can be asked.
pub open spec fn takes_all<
    O: Fn(&[u8]) -> Result<Catalog, Error>,
    I: Fn(&Catalog) -> Result<Vec<u8>, Error>,
    C: Fn(&[u8]) -> Result<(), Error>,
    M: Fn(&[u8], &[u8], &[u8], &BTreeMap<u32, Clock>) -> Result<Minted, Error>,
>(host: ConcatHost<O, I, C, M>) -> bool {
    &&& forall|d: &[u8]| #[trigger] call_requires(host.read_catalog, (d,))
    &&& forall|c: &Catalog| #[trigger] call_requires(host.build_init, (c,))
    &&& forall|d: &[u8]| #[trigger] call_requires(host.check_moof, (d,))
    &&& forall|a: &[u8], b: &[u8], p: &[u8], t: &BTreeMap<u32, Clock>| #[trigger]
        call_requires(host.mint, (a, b, p, t))
}

/// Executable form of [`BoxHead`].
struct Front {
    size: u64,
    kind: u32,
    header: usize,
}

fn peek_atom_header(buf: &Vec<u8>) -> (r: Option<Front>)
    ensures
        match r {
            None => front_box(buf@) is None,
            Some(f) => {
                &&& front_box(buf@) == Some(
                    BoxHead { size: f.size as int, kind: f.kind as int, header: f.header as int },
                )
                &&& f.header <= buf@.len()
            },
        },
{
    if buf.len() < 8 {
        return None;
    }
    let size: u32 = read_be32(buf.as_slice(), 0);
    let kind: u32 = read_be32(buf.as_slice(), 4);
    if size == 0 {
        None
    } else if size == 1 {
        if buf.len() < 16 {
            return None;
        }
        let size: u64 = read_be64(buf.as_slice(), 8);
        Some(Front { size, kind, header: 16 })
    } else {
        Some(Front { size: size as u64, kind, header: 8 })
    }
}

/// Splits `n` bytes off the front of `buf`.
fn take_front(buf: &mut Vec<u8>, n: usize) -> (r: Vec<u8>)
    requires
        n <= old(buf)@.len(),
    ensures
        r@ == old(buf)@.take(n as int),
        final(buf)@ == old(buf)@.skip(n as int),
{
    let mut rest = buf.split_off(n);
    std::mem::swap(&mut rest, buf);
    assert(rest@ =~= old(buf)@.take(n as int));
    assert(buf@ =~= old(buf)@.skip(n as int));
    rest
}

/// Moves the offsets of samples `n` bytes further on.
pub fn shift_offsets(offsets: &Vec<u64>, n: u64) -> (r: Vec<u64>)
    ensures
        r@ == offsets@.map_values(|o: u64| sat64(o + n)),
{
    let mut out: Vec<u64> = Vec::new();
    let mut i: usize = 0;
    while i < offsets.len()
        invariant
            i <= offsets@.len(),
            out@ == offsets@.take(i as int).map_values(|o: u64| sat64(o + n)),
        decreases offsets@.len() - i,
    {
        out.push(offsets[i].saturating_add(n));
        i += 1;
        assert(out@ =~= offsets@.take(i as int).map_values(|o: u64| sat64(o + n)));
    }
    assert(offsets@.take(i as int) =~= offsets@);
    out
}

/// Puts `prefix` before the bytes of every track.
pub fn prefix_tracks(gop: GopSegment, prefix: &Vec<u8>) -> (r: GopSegment)
    ensures
        r@ == prefixed(gop@, prefix@),
{
    let ghost g = gop@;
    let ghost want = prefixed(g, prefix@);
    let GopSegment {
        number,
        tracks,
        durations,
        sample_counts,
        samples,
        first_decode_times,
        body_size: _,
        duration_us,
    } = gop;
    let ids = keys_of(&tracks);
    let mut out: BTreeMap<u32, Vec<u8>> = BTreeMap::new();
    let mut size: u64 = 0;
    let mut i: usize = 0;
    assert(ids@.take(0) =~= seq![]);
    assert(tracks@.dom() =~= want.tracks.dom());
    while i < ids.len()
        invariant
            i <= ids@.len(),
            lists(ids@, tracks@.dom()),
            tracks@.dom() == want.tracks.dom(),
            forall|k: u32| #[trigger] tracks@.contains_key(k) ==> want.tracks[k] == prefix@ + tracks@[k]@,
            forall|k: u32| #[trigger]
                out@.contains_key(k) == exists|x: int| 0 <= x < i && ids@[x] == k,
            forall|k: u32| #[trigger]
                out@.contains_key(k) ==> tracks@.contains_key(k) && out@[k]@ == want.tracks[k],
            size == sat64(total_bytes(ids@.take(i as int), want.tracks)),
            total_bytes(ids@.take(i as int), want.tracks) >= 0,
        decreases ids@.len() - i,
    {
        let tid: u32 = ids[i];
        assert(ids@.contains(tid)) by {
            assert(ids@[i as int] == tid);
        }
        assert(tracks@.contains_key(tid));
        match tracks.get(&tid) {
            None => {},
            Some(data) => {
                let mut bytes = slice_to_vec(prefix.as_slice());
                bytes.extend_from_slice(data.as_slice());
                assert(bytes@ =~= prefix@ + data@);
                assert(ids@.take(i + 1).drop_last() =~= ids@.take(i as int));
                size = size.saturating_add(bytes.len() as u64);
                out.insert(tid, bytes);
            },
        }
        i += 1;
    }
    proof {
        assert(ids@.take(i as int) =~= ids@);
        assert forall|k: u32| out@.contains_key(k) == tracks@.contains_key(k) by {
            if tracks@.contains_key(k) {
                assert(ids@.contains(k));
                assert(ids@[ids@.index_of(k)] == k);
            }
        }
    }
    let sids = keys_of(&samples);
    let mut moved_samples: BTreeMap<u32, TrackSamples> = BTreeMap::new();
    let n: u64 = prefix.len() as u64;
    let mut j: usize = 0;
    while j < sids.len()
        invariant
            j <= sids@.len(),
            n == prefix@.len(),
            lists(sids@, samples@.dom()),
            forall|k: u32| #[trigger]
                moved_samples@.contains_key(k) == exists|x: int| 0 <= x < j && sids@[x] == k,
            forall|k: u32| #[trigger]
                moved_samples@.contains_key(k) ==> samples@.contains_key(k) && moved_samples@[k]@
                    == moved(samples@[k]@, n as int),
        decreases sids@.len() - j,
    {
        let tid: u32 = sids[j];
        assert(sids@.contains(tid)) by {
            assert(sids@[j as int] == tid);
        }
        match samples.get(&tid) {
            None => {},
            Some(s) => {
                let mut t = s.duplicate();
                t.offsets_in_track = shift_offsets(&s.offsets_in_track, n);
                assert(t@ =~= moved(s@, n as int));
                moved_samples.insert(tid, t);
            },
        }
        j += 1;
    }
    proof {
        assert forall|k: u32| moved_samples@.contains_key(k) == samples@.contains_key(k) by {
            if samples@.contains_key(k) {
                assert(sids@.contains(k));
                assert(sids@[sids@.index_of(k)] == k);
            }
        }
    }
    let r = GopSegment {
        number,
        tracks: out,
        durations,
        sample_counts,
        samples: moved_samples,
        first_decode_times,
        body_size: size,
        duration_us,
    };
    proof {
        assert(r@.tracks =~= want.tracks);
        assert(r@.samples =~= want.samples);
        assert(r@ =~= want);
    }
    r
}

struct Streaming {
    moov: Vec<u8>,
    clocks: BTreeMap<u32, Clock>,
    seen_key: bool,
    begun: Option<u64>,
    moof: Option<Vec<u8>>,
}

impl Streaming {
    spec fn state(&self) -> StreamView {
        StreamView {
            moov: self.moov@,
            clocks: self.clocks@,
            seen_key: self.seen_key,
            begun: self.begun,
            moof: match self.moof {
                Some(m) => Some(m@),
                None => None,
            },
        }
    }
}

/// Merges MUXL files that arrive one after the other.
///
/// The `uuid` box of a file's init section goes in front of every segment cut
/// from it. An init event comes only where the catalog changes. A GOP is cut at
/// a video keyframe (at every second of a file without video), at the end of a
/// file, and at the end of the envelope of a flat MP4, so that a live consumer
/// does not lag one file behind.
pub struct Concatenator {
    buf: Vec<u8>,
    catalog: Option<Catalog>,
    uuid: Option<Vec<u8>>,
    pending_uuid: Option<Vec<u8>>,
    stream: Option<Streaming>,
    scales: BTreeMap<u32, u32>,
    video: Vec<u32>,
    bufs: BTreeMap<u32, TrackBuf>,
    number: u32,
    envelope: Option<u64>,
}

/// The bytes in `v`.
pub open spec fn bytes_opt(v: Option<Vec<u8>>) -> Option<Seq<u8>> {
    match v {
        Some(b) => Some(b@),
        None => None,
    }
}

impl View for Concatenator {
    type V = ConcatView;

    closed spec fn view(&self) -> ConcatView {
        ConcatView {
            buf: self.buf@,
            catalog: match self.catalog {
                Some(c) => Some(c@),
                None => None,
            },
            uuid: bytes_opt(self.uuid),
            pending_uuid: bytes_opt(self.pending_uuid),
            stream: match self.stream {
                Some(s) => Some(s.state()),
                None => None,
            },
            scales: self.scales@,
            video: self.video@,
            bufs: bufs_view(self.bufs@),
            number: self.number,
            envelope: self.envelope,
        }
    }
}

/// Nothing seen yet.
pub open spec fn concat_start() -> ConcatView {
    ConcatView {
        buf: seq![],
        catalog: None,
        uuid: None,
        pending_uuid: None,
        stream: None,
        scales: Map::empty(),
        video: seq![],
        bufs: Map::empty(),
        number: 0,
        envelope: None,
    }
}

/// `st` with more input.
pub open spec fn with_input(st: ConcatView, data: Seq<u8>) -> ConcatView {
    ConcatView { buf: st.buf + data, ..st }
}

impl Default for Concatenator {
    fn default() -> (r: Self)
        ensures
            r@ == concat_start(),
    {
        Concatenator::new()
    }
}

impl Concatenator {
    /// A concatenator that has seen nothing yet.
    pub fn new() -> (r: Self)
        ensures
            r@ == concat_start(),
    {
        let r = Concatenator {
            buf: Vec::new(),
            catalog: None,
            uuid: None,
            pending_uuid: None,
            stream: None,
            scales: BTreeMap::new(),
            video: Vec::new(),
            bufs: BTreeMap::new(),
            number: 0,
            envelope: None,
        };
        assert(r@.bufs =~= Map::empty());
        assert(r@.buf =~= seq![]);
        assert(r@.video =~= seq![]);
        r
    }

    /// Cuts a GOP of what is gathered.
    fn flush_segment_into(&mut self, events: &mut Vec<SegmenterEvent>)
        ensures
            final(self)@ == after_cut(old(self)@),
            events_view(final(events)@) == events_view(old(events)@) + cut_event(old(self)@),
    {
        let ghost st = self@;
        let number: u32 = self.number.saturating_add(1);
        if !self.anything_gathered(number) {
            assert(events_view(events@) + seq![] =~= events_view(events@));
            return;
        }
        let mut bufs: BTreeMap<u32, TrackBuf> = BTreeMap::new();
        std::mem::swap(&mut bufs, &mut self.bufs);
        self.number = number;
        assert(self@.bufs =~= Map::empty());
        match flush_track_bufs(bufs, &self.scales, &self.video, number) {
            None => {},
            Some(g) => {
                let gop = match &self.uuid {
                    None => g,
                    Some(u) => prefix_tracks(g, u),
                };
                let ghost before = events@;
                events.push(SegmenterEvent::Segment(gop));
                assert(events_view(events@) =~= events_view(before) + cut_event(st));
            },
        }
    }

    /// Whether a cut would give a GOP.
    fn anything_gathered(&self, number: u32) -> (r: bool)
        requires
            number == sat32(self@.number + 1),
        ensures
            r == next_gop(self@) is Some,
    {
        let ids = keys_of(&self.bufs);
        let ghost b0 = self@.bufs;
        let mut i: usize = 0;
        while i < ids.len()
            invariant
                i <= ids@.len(),
                lists(ids@, self.bufs@.dom()),
                b0 == bufs_view(self.bufs@),
                forall|j: int| 0 <= j < i ==> b0[#[trigger] ids@[j]].data.len() == 0,
                b0 == self@.bufs,
            decreases ids@.len() - i,
        {
            let tid: u32 = ids[i];
            assert(ids@.contains(tid)) by {
                assert(ids@[i as int] == tid);
            }
            assert(self.bufs@.contains_key(tid));
            match self.bufs.get(&tid) {
                None => {},
                Some(b) => {
                    assert(b0[tid] == b@);
                    if b.data.len() > 0 {
                        proof {
                            assert(live(b0).contains(tid));
                        }
                        return true;
                    }
                },
            }
            i += 1;
        }
        proof {
            let alive = live(b0);
            assert forall|k: u32| !alive.contains(k) by {
                if alive.contains(k) {
                    assert(self.bufs@.dom().contains(k));
                    assert(ids@.contains(k));
                    assert(b0[ids@[ids@.index_of(k)]].data.len() == 0);
                }
            }
            assert(alive =~= Set::<u32>::empty());
        }
        false
    }

    /// Ends the stream, and hands back the last GOP.
    pub fn flush(&mut self) -> (r: Result<Vec<SegmenterEvent>, Error>)
        ensures
            final(self)@ == after_cut(old(self)@),
            r matches Ok(events) && events_view(events@) == cut_event(old(self)@),
    {
        let mut events: Vec<SegmenterEvent> = Vec::new();
        assert(events_view(events@) =~= seq![]);
        self.flush_segment_into(&mut events);
        assert(seq![] + cut_event(old(self)@) =~= cut_event(old(self)@));
        Ok(events)
    }

    fn on_moov<
        O: Fn(&[u8]) -> Result<Catalog, Error>,
        I: Fn(&Catalog) -> Result<Vec<u8>, Error>,
        C: Fn(&[u8]) -> Result<(), Error>,
        M: Fn(&[u8], &[u8], &[u8], &BTreeMap<u32, Clock>) -> Result<Minted, Error>,
    >(
        &mut self,
        data: Vec<u8>,
        host: &ConcatHost<O, I, C, M>,
        events: &mut Vec<SegmenterEvent>,
    ) -> (r: (Result<(), Error>, Ghost<Seq<Exchange>>))
        requires
            takes_all(*host),
        ensures
            all_answered(*host, r.1@),
            match take_moov(old(self)@, data@, r.1@) {
                Outcome::Mismatch | Outcome::Refused { .. } => false,
                Outcome::Failed { state, error } => r.0 == Err::<(), Error>(error) && final(self)@
                    == state,
                Outcome::Done { state, events: evs } => r.0 is Ok && final(self)@ == state
                    && events_view(final(events)@) == events_view(old(events)@) + evs,
            },
    {
        let ghost st = self@;
        self.flush_segment_into(events);
        let ghost cut = self@;
        let answer = (host.read_catalog)(data.as_slice());
        let ghost first = Exchange::Catalog(data@, answer);
        assert(answered(*host, first));
        let catalog = match answer {
            Ok(c) => c,
            Err(e) => {
                let ghost log = seq![first];
                assert(log[0] == first);
                return (Err(e), Ghost(log));
            },
        };
        let same: bool = match &self.catalog {
            None => false,
            Some(c) => c.same(&catalog),
        };
        let ghost mut log = seq![first];
        if !same {
            let built = (host.build_init)(&catalog);
            let ghost second = Exchange::Init(catalog, built);
            assert(answered(*host, second));
            proof {
                log = seq![first, second];
                assert(log[0] == first && log[1] == second);
                assert(all_answered(*host, log));
            }
            match built {
                Err(e) => {
                    return (Err(e), Ghost(log));
                },
                Ok(init) => {
                    let ghost before = events@;
                    events.push(
                        SegmenterEvent::InitSegment { catalog: catalog.duplicate(), data: init },
                    );
                    assert(events_view(events@) =~= events_view(before) + seq![
                        EventView::Init { catalog: catalog@, data: init@ },
                    ]);
                    assert(events_view(events@) =~= events_view(old(events)@) + (cut_event(st)
                        + seq![EventView::Init { catalog: catalog@, data: init@ }]));
                },
            }
        } else {
            assert(log[0] == first);
        }
        let mut scales: BTreeMap<u32, u32> = BTreeMap::new();
        note_timescales(&mut scales, &catalog);
        self.scales = scales;
        self.video = video_track_ids(&catalog);
        self.envelope = None;
        let mut pending: Option<Vec<u8>> = None;
        std::mem::swap(&mut pending, &mut self.pending_uuid);
        self.uuid = pending;
        let ghost c = catalog;
        let ghost d = data@;
        self.catalog = Some(catalog);
        self.stream = Some(
            Streaming {
                moov: data,
                clocks: BTreeMap::new(),
                seen_key: false,
                begun: None,
                moof: None,
            },
        );
        assert(self@ == opened(cut, d, c));
        (Ok(()), Ghost(log))
    }

    fn on_frames(&mut self, frames: &Vec<Frame>, events: &mut Vec<SegmenterEvent>)
        requires
            old(self)@.stream is Some,
        ensures
            ({
                let (state, evs) = after_frames(old(self)@, frames_view(frames@));
                final(self)@ == state && events_view(final(events)@) == events_view(old(events)@)
                    + evs
            }),
    {
        let ghost st = self@;
        let ghost fs = frames_view(frames@);
        let ghost base = events_view(events@);
        let mut i: usize = 0;
        assert(fs.take(0) =~= seq![]);
        assert(base + seq![] =~= base);
        while i < frames.len()
            invariant
                i <= frames@.len(),
                fs == frames_view(frames@),
                self@.stream is Some,
                self@ == after_frames(st, fs.take(i as int)).0,
                events_view(events@) == base + after_frames(st, fs.take(i as int)).1,
            decreases frames@.len() - i,
        {
            let frame = &frames[i];
            let ghost prior = self@;
            let ghost sofar = events_view(events@);
            proof {
                assert(fs.take(i + 1).drop_last() =~= fs.take(i as int));
                assert(fs.take(i + 1).last() == frame@);
            }
            let mut stream: Option<Streaming> = None;
            std::mem::swap(&mut stream, &mut self.stream);
            match stream {
                None => {},
                Some(mut ss) => {
                    let ghost s0 = ss.state();
                    let key: bool = has_id(&self.video, frame.track_id) && frame.is_sync;
                    let second: u64 = frame_second(frame, &self.scales);
                    let cuts: bool = if self.video.len() > 0 {
                        key && ss.seen_key
                    } else {
                        match ss.begun {
                            Some(begun) => second > begun,
                            None => false,
                        }
                    };
                    if key {
                        ss.seen_key = true;
                    }
                    if cuts || ss.begun.is_none() {
                        ss.begun = Some(second);
                    }
                    let ghost begun = ss.begun;
                    self.stream = Some(ss);
                    let ghost marked = self@;
                    assert(marked == (ConcatView {
                        stream: Some(StreamView { seen_key: s0.seen_key || key, begun, ..s0 }),
                        ..prior
                    }));
                    if cuts {
                        self.flush_segment_into(events);
                        assert(next_gop(marked) == next_gop(prior));
                        assert(base + after_frames(st, fs.take(i as int)).1 + cut_event(prior)
                            =~= base + (after_frames(st, fs.take(i as int)).1 + cut_event(prior)));
                    }
                    record_frame(frame, &mut self.bufs);
                },
            }
            i += 1;
        }
        assert(fs.take(i as int) =~= fs);
    }

    fn on_mdat<
        O: Fn(&[u8]) -> Result<Catalog, Error>,
        I: Fn(&Catalog) -> Result<Vec<u8>, Error>,
        C: Fn(&[u8]) -> Result<(), Error>,
        M: Fn(&[u8], &[u8], &[u8], &BTreeMap<u32, Clock>) -> Result<Minted, Error>,
    >(
        &mut self,
        data: &Vec<u8>,
        host: &ConcatHost<O, I, C, M>,
        events: &mut Vec<SegmenterEvent>,
    ) -> (r: (Result<(), Error>, Ghost<Seq<Exchange>>))
        requires
            takes_all(*host),
        ensures
            all_answered(*host, r.1@),
            match take_mdat(old(self)@, data@, r.1@) {
                Outcome::Mismatch | Outcome::Refused { .. } => false,
                Outcome::Failed { state, error } => r.0 == Err::<(), Error>(error) && final(self)@
                    == state,
                Outcome::Done { state, events: evs } => r.0 is Ok && final(self)@ == state
                    && events_view(final(events)@) == events_view(old(events)@) + evs,
            },
    {
        let ghost st = self@;
        assert(events_view(events@) + seq![] =~= events_view(events@));
        let mut stream: Option<Streaming> = None;
        std::mem::swap(&mut stream, &mut self.stream);
        match stream {
            None => (Ok(()), Ghost(Seq::empty())),
            Some(mut ss) => {
                let mut pending: Option<Vec<u8>> = None;
                std::mem::swap(&mut pending, &mut ss.moof);
                match pending {
                    None => {
                        self.stream = Some(ss);
                        (Ok(()), Ghost(Seq::empty()))
                    },
                    Some(moof) => {
                        let whole = data.as_slice();
                        let payload = if data.len() as u64 > 0xffff_ffff {
                            slice_subrange(whole, 16, data.len())
                        } else if data.len() >= 8 {
                            slice_subrange(whole, 8, data.len())
                        } else {
                            slice_subrange(whole, 0, 0)
                        };
                        assert(payload@ =~= payload_of(data@));
                        let answer = (host.mint)(
                            ss.moov.as_slice(),
                            moof.as_slice(),
                            payload,
                            &ss.clocks,
                        );
                        let ghost x = Exchange::Mint {
                            moov: ss.moov@,
                            moof: moof@,
                            payload: payload@,
                            clocks: ss.clocks@,
                            answer,
                        };
                        let ghost log = seq![x];
                        proof {
                            assert(answered(*host, x));
                            assert(log[0] == x);
                        }
                        match answer {
                            Err(e) => {
                                self.stream = Some(ss);
                                (Err(e), Ghost(log))
                            },
                            Ok(minted) => {
                                let Minted { frames, clocks } = minted;
                                ss.clocks = clocks;
                                self.stream = Some(ss);
                                self.on_frames(&frames, events);
                                (Ok(()), Ghost(log))
                            },
                        }
                    },
                }
            },
        }
    }

    fn on_moof<
        O: Fn(&[u8]) -> Result<Catalog, Error>,
        I: Fn(&Catalog) -> Result<Vec<u8>, Error>,
        C: Fn(&[u8]) -> Result<(), Error>,
        M: Fn(&[u8], &[u8], &[u8], &BTreeMap<u32, Clock>) -> Result<Minted, Error>,
    >(&mut self, data: Vec<u8>, host: &ConcatHost<O, I, C, M>) -> (r: (
        Result<(), Error>,
        Ghost<Seq<Exchange>>,
    ))
        requires
            takes_all(*host),
        ensures
            all_answered(*host, r.1@),
            match take_moof(old(self)@, data@, r.1@) {
                Outcome::Mismatch | Outcome::Refused { .. } => false,
                Outcome::Failed { state, error } => r.0 == Err::<(), Error>(error) && final(self)@
                    == state,
                Outcome::Done { state, events: evs } => r.0 is Ok && final(self)@ == state && evs
                    == Seq::<EventView>::empty(),
            },
    {
        let mut stream: Option<Streaming> = None;
        std::mem::swap(&mut stream, &mut self.stream);
        match stream {
            None => (Ok(()), Ghost(Seq::empty())),
            Some(mut ss) => {
                let answer = (host.check_moof)(data.as_slice());
                let ghost x = Exchange::Moof(data@, answer);
                let ghost log = seq![x];
                proof {
                    assert(answered(*host, x));
                    assert(log[0] == x);
                }
                match answer {
                    Err(e) => {
                        self.stream = Some(ss);
                        (Err(e), Ghost(log))
                    },
                    Ok(()) => {
                        ss.moof = Some(data);
                        self.stream = Some(ss);
                        (Ok(()), Ghost(log))
                    },
                }
            },
        }
    }

    /// Takes the box `data`, already consumed.
    fn on_box<
        O: Fn(&[u8]) -> Result<Catalog, Error>,
        I: Fn(&Catalog) -> Result<Vec<u8>, Error>,
        C: Fn(&[u8]) -> Result<(), Error>,
        M: Fn(&[u8], &[u8], &[u8], &BTreeMap<u32, Clock>) -> Result<Minted, Error>,
    >(
        &mut self,
        kind: u32,
        data: Vec<u8>,
        host: &ConcatHost<O, I, C, M>,
        events: &mut Vec<SegmenterEvent>,
    ) -> (r: (Result<(), Error>, Ghost<Seq<Exchange>>))
        requires
            takes_all(*host),
        ensures
            all_answered(*host, r.1@),
            match take_box(old(self)@, kind as int, data@, r.1@) {
                Outcome::Mismatch | Outcome::Refused { .. } => false,
                Outcome::Failed { state, error } => r.0 == Err::<(), Error>(error) && final(self)@
                    == state,
                Outcome::Done { state, events: evs } => r.0 is Ok && final(self)@ == state
                    && events_view(final(events)@) == events_view(old(events)@) + evs,
            },
    {
        assert(events_view(events@) + seq![] =~= events_view(events@));
        if kind == MOOV {
            self.on_moov(data, host, events)
        } else if kind == MOOF {
            self.on_moof(data, host)
        } else if kind == MDAT {
            self.on_mdat(&data, host, events)
        } else if kind == FTYP {
            self.flush_segment_into(events);
            self.pending_uuid = None;
            self.envelope = None;
            self.stream = None;
            (Ok(()), Ghost(Seq::empty()))
        } else if kind == UUID {
            if self.stream.is_some() {
                self.flush_segment_into(events);
                self.envelope = None;
                self.stream = None;
            }
            self.pending_uuid = Some(data);
            (Ok(()), Ghost(Seq::empty()))
        } else {
            (Ok(()), Ghost(Seq::empty()))
        }
    }

    /// Takes the next piece of the input, and hands back the events due with it.
    /// A failure drops the events of this piece.
    pub fn feed<
        O: Fn(&[u8]) -> Result<Catalog, Error>,
        I: Fn(&Catalog) -> Result<Vec<u8>, Error>,
        C: Fn(&[u8]) -> Result<(), Error>,
        M: Fn(&[u8], &[u8], &[u8], &BTreeMap<u32, Clock>) -> Result<Minted, Error>,
    >(&mut self, data: &[u8], host: &ConcatHost<O, I, C, M>) -> (r: Result<
        Vec<SegmenterEvent>,
        Error,
    >)
        requires
            takes_all(*host),
        ensures
            feeds(*host, old(self)@, data@, final(self)@, events_or_error(r)),
    {
        self.buf.extend_from_slice(data);
        let ghost st0 = with_input(old(self)@, data@);
        assert(self@.buf =~= st0.buf);
        assert(self@ == st0);
        let mut events: Vec<SegmenterEvent> = Vec::new();
        let ghost mut logs: Seq<Seq<Exchange>> = seq![];
        assert(events_view(events@) =~= seq![]);
        loop
            invariant
                takes_all(*host),
                logs_answered(*host, logs),
                steps(st0, logs) == (Outcome::Done { state: self@, events: events_view(events@) }),
                st0 == with_input(old(self)@, data@),
            ensures
                at_rest(self@),
            decreases self@.buf.len(),
        {
            let h = match peek_atom_header(&self.buf) {
                None => {
                    break;
                },
                Some(h) => h,
            };
            let ghost st = self@;
            let ghost before = events_view(events@);
            let envelope: bool = h.kind == MDAT && (match &self.stream {
                None => false,
                Some(ss) => ss.moof.is_none(),
            });
            if envelope {
                let dropped = take_front(&mut self.buf, h.header);
                self.envelope = Some(h.size.saturating_sub(h.header as u64));
                proof {
                    let log: Seq<Exchange> = seq![];
                    lemma_step(st0, logs, log, st, before);
                    assert(before + seq![] =~= before);
                    lemma_log_pushed(*host, logs, log);
                    logs = logs.push(log);
                }
            } else {
                if h.size == 0 {
                    if h.kind == MOOV {
                        self.flush_segment_into(&mut events);
                        proof {
                            let log: Seq<Exchange> = seq![];
                            lemma_step(st0, logs, log, st, before);
                            lemma_log_pushed(*host, logs, log);
                            logs = logs.push(log);
                            assert(steps(st0, logs) == refusal(st, BoxHead {
                                size: 0,
                                kind: h.kind as int,
                                header: h.header as int,
                            }));
                        }
                        return Err(Error::InvalidMp4("empty moov header".to_string()));
                    }
                    if h.kind == MOOF && self.stream.is_some() {
                        proof {
                            let log: Seq<Exchange> = seq![];
                            lemma_step(st0, logs, log, st, before);
                            lemma_log_pushed(*host, logs, log);
                            logs = logs.push(log);
                            assert(steps(st0, logs) == refusal(st, BoxHead {
                                size: 0,
                                kind: h.kind as int,
                                header: h.header as int,
                            }));
                        }
                        return Err(Error::InvalidMp4("empty moof header".to_string()));
                    }
                    break;
                }
                if (self.buf.len() as u64) < h.size {
                    break;
                }
                let data = take_front(&mut self.buf, h.size as usize);
                let ghost rest = self@;
                let ghost d = data@;
                assert(rest == (ConcatView { buf: st.buf.skip(h.size as int), ..st }));
                let (answer, log) = self.on_box(h.kind, data, host, &mut events);
                let ghost mid = self@;
                let ghost mid_events = events_view(events@);
                proof {
                    lemma_step(st0, logs, log@, st, before);
                    lemma_log_pushed(*host, logs, log@);
                    lemma_take_box_keeps_input(rest, h.kind as int, d, log@);
                }
                match answer {
                    Err(e) => {
                        proof {
                            logs = logs.push(log@);
                        }
                        return Err(e);
                    },
                    Ok(()) => {},
                }
                match self.envelope {
                    None => {
                        assert(mid_events + seq![] =~= mid_events);
                    },
                    Some(left) => {
                        if left <= h.size {
                            self.envelope = None;
                            self.flush_segment_into(&mut events);
                            assert(cut_event(ConcatView { envelope: None, ..mid }) == cut_event(
                                mid,
                            ));
                        } else {
                            self.envelope = Some(left - h.size);
                            assert(mid_events + seq![] =~= mid_events);
                        }
                    },
                }
                proof {
                    let evs = (take_box(rest, h.kind as int, d, log@))->events;
                    assert(self@ == counted(mid, h.size as int));
                    assert(events_view(events@) =~= before + (evs + counted_event(
                        mid,
                        h.size as int,
                    )));
                    logs = logs.push(log@);
                }
            }
        }
        Ok(events)
    }
}

/// The events that a piece of the input led to, or the failure.
pub open spec fn events_or_error(r: Result<Vec<SegmenterEvent>, Error>) -> Result<
    Seq<EventView>,
    ErrorView,
> {
    match r {
        Ok(evs) => Ok(events_view(evs@)),
        Err(e) => Err(e@),
    }
}

/// Whether taking boxes as far as it goes leads to the state `next` and to `r`.
pub open spec fn leads_to(
    o: Outcome,
    next: ConcatView,
    r: Result<Seq<EventView>, ErrorView>,
) -> bool {
    match o {
        Outcome::Mismatch => false,
        Outcome::Failed { state, error } => next == state && r == Err::<Seq<EventView>, ErrorView>(
            error@,
        ),
        Outcome::Refused { state, text } => next == state && r == Err::<Seq<EventView>, ErrorView>(
            ErrorView::InvalidMp4(text),
        ),
        Outcome::Done { state, events } => {
            &&& at_rest(state)
            &&& next == state
            &&& r == Ok::<Seq<EventView>, ErrorView>(events)
        },
    }
}

/// Whether the piece `data` of the input takes `st` to `next` with the events, or the
/// failure, `r`: every complete box is taken, with some answers of the caller.
pub open spec fn feeds<
    O: Fn(&[u8]) -> Result<Catalog, Error>,
    I: Fn(&Catalog) -> Result<Vec<u8>, Error>,
    C: Fn(&[u8]) -> Result<(), Error>,
    M: Fn(&[u8], &[u8], &[u8], &BTreeMap<u32, Clock>) -> Result<Minted, Error>,
>(
    host: ConcatHost<O, I, C, M>,
    st: ConcatView,
    data: Seq<u8>,
    next: ConcatView,
    r: Result<Seq<EventView>, ErrorView>,
) -> bool {
    exists|logs: Seq<Seq<Exchange>>| #[trigger]
        logs_answered(host, logs) && leads_to(steps(with_input(st, data), logs), next, r)
}

/// Whether the caller answered as in all of `logs`.
pub open spec fn logs_answered<
    O: Fn(&[u8]) -> Result<Catalog, Error>,
    I: Fn(&Catalog) -> Result<Vec<u8>, Error>,
    C: Fn(&[u8]) -> Result<(), Error>,
    M: Fn(&[u8], &[u8], &[u8], &BTreeMap<u32, Clock>) -> Result<Minted, Error>,
>(host: ConcatHost<O, I, C, M>, logs: Seq<Seq<Exchange>>) -> bool {
    forall|i: int| 0 <= i < logs.len() ==> all_answered(host, #[trigger] logs[i])
}

proof fn lemma_log_pushed<
    O: Fn(&[u8]) -> Result<Catalog, Error>,
    I: Fn(&Catalog) -> Result<Vec<u8>, Error>,
    C: Fn(&[u8]) -> Result<(), Error>,
    M: Fn(&[u8], &[u8], &[u8], &BTreeMap<u32, Clock>) -> Result<Minted, Error>,
>(host: ConcatHost<O, I, C, M>, logs: Seq<Seq<Exchange>>, log: Seq<Exchange>)
    requires
        logs_answered(host, logs),
        all_answered(host, log),
    ensures
        logs_answered(host, logs.push(log)),
{
    assert forall|i: int| 0 <= i < logs.len() + 1 implies all_answered(
        host,
        #[trigger] logs.push(log)[i],
    ) by {
        if i < logs.len() {
            assert(logs.push(log)[i] == logs[i]);
        }
    }
}

/// One more step.
proof fn lemma_step(
    st0: ConcatView,
    logs: Seq<Seq<Exchange>>,
    log: Seq<Exchange>,
    st: ConcatView,
    before: Seq<EventView>,
)
    requires
        steps(st0, logs) == (Outcome::Done { state: st, events: before }),
    ensures
        steps(st0, logs.push(log)) == match step(st, log) {
            Outcome::Done { state, events } => Outcome::Done { state, events: before + events },
            other => other,
        },
{
    assert(logs.push(log).drop_last() =~= logs);
    assert(logs.push(log).last() == log);
}

/// Frames leave the input alone.
proof fn lemma_frames_keep_input(st: ConcatView, fs: Seq<FrameView>)
    ensures
        after_frames(st, fs).0.buf == st.buf,
    decreases fs.len(),
{
    if fs.len() > 0 {
        lemma_frames_keep_input(st, fs.drop_last());
    }
}

/// A box that is consumed leaves the input behind it alone.
proof fn lemma_take_box_keeps_input(
    st: ConcatView,
    kind: int,
    data: Seq<u8>,
    log: Seq<Exchange>,
)
    ensures
        take_box(st, kind, data, log) matches Outcome::Done { state, events } ==> state.buf
            == st.buf,
{
    if kind == MDAT && kind != MOOV && kind != MOOF && log.len() == 1 && st.stream is Some {
        match log[0] {
            Exchange::Mint { moov, moof, payload, clocks, answer } => {
                match answer {
                    Ok(minted) => {
                        let stream = st.stream->Some_0;
                        let taken = StreamView { moof: None, ..stream };
                        lemma_frames_keep_input(
                            ConcatView {
                                stream: Some(StreamView { clocks: minted.clocks@, ..taken }),
                                ..st
                            },
                            frames_view(minted.frames@),
                        );
                    },
                    Err(_) => {},
                }
            },
            _ => {},
        }
    }
}

/// `o` with more input behind what is left.
pub open spec fn with_more(o: Outcome, more: Seq<u8>) -> Outcome {
    match o {
        Outcome::Mismatch => o,
        Outcome::Failed { state, error } => Outcome::Failed {
            state: with_input(state, more),
            error,
        },
        Outcome::Refused { state, text } => Outcome::Refused {
            state: with_input(state, more),
            text,
        },
        Outcome::Done { state, events } => Outcome::Done {
            state: with_input(state, more),
            events,
        },
    }
}

proof fn lemma_frames_more(st: ConcatView, fs: Seq<FrameView>, more: Seq<u8>)
    ensures
        after_frames(with_input(st, more), fs) == (
            with_input(after_frames(st, fs).0, more),
            after_frames(st, fs).1,
        ),
    decreases fs.len(),
{
    if fs.len() > 0 {
        lemma_frames_more(st, fs.drop_last(), more);
    }
}

proof fn lemma_take_box_more(
    st: ConcatView,
    kind: int,
    data: Seq<u8>,
    log: Seq<Exchange>,
    more: Seq<u8>,
)
    ensures
        take_box(with_input(st, more), kind, data, log) == with_more(
            take_box(st, kind, data, log),
            more,
        ),
{
    if kind == MDAT && log.len() == 1 && st.stream is Some {
        match log[0] {
            Exchange::Mint { moov, moof, payload, clocks, answer } => {
                match answer {
                    Ok(minted) => {
                        let stream = st.stream->Some_0;
                        let taken = StreamView { moof: None, ..stream };
                        lemma_frames_more(
                            ConcatView {
                                stream: Some(StreamView { clocks: minted.clocks@, ..taken }),
                                ..st
                            },
                            frames_view(minted.frames@),
                            more,
                        );
                    },
                    Err(_) => {},
                }
            },
            _ => {},
        }
    }
}

/// More input leaves the header at its front.
pub proof fn lemma_front_more(buf: Seq<u8>, more: Seq<u8>)
    requires
        front_box(buf) is Some,
    ensures
        front_box(buf + more) == front_box(buf),
{
    let s = buf + more;
    assert(be32(s, 0) == be32(buf, 0)) by {
        assert(s[0] == buf[0] && s[1] == buf[1] && s[2] == buf[2] && s[3] == buf[3]);
    }
    assert(be32(s, 4) == be32(buf, 4)) by {
        assert(s[4] == buf[4] && s[5] == buf[5] && s[6] == buf[6] && s[7] == buf[7]);
    }
    if be32(buf, 0) == 1 {
        assert(be64(s, 8) == be64(buf, 8)) by {
            assert(s[8] == buf[8] && s[9] == buf[9] && s[10] == buf[10] && s[11] == buf[11]);
            assert(s[12] == buf[12] && s[13] == buf[13] && s[14] == buf[14] && s[15] == buf[15]);
        }
    }
}

proof fn lemma_step_more(st: ConcatView, log: Seq<Exchange>, more: Seq<u8>)
    requires
        !(step(st, log) is Mismatch),
    ensures
        step(with_input(st, more), log) == with_more(step(st, log), more),
{
    lemma_front_more(st.buf, more);
    let h = front_box(st.buf)->Some_0;
    let full = with_input(st, more);
    if is_envelope(st, h) {
        assert(full.buf.skip(h.header) =~= st.buf.skip(h.header) + more);
    } else {
        assert(full.buf.skip(h.size) =~= st.buf.skip(h.size) + more);
        assert(full.buf.take(h.size) =~= st.buf.take(h.size));
        let rest = ConcatView { buf: st.buf.skip(h.size), ..st };
        lemma_take_box_more(rest, h.kind, st.buf.take(h.size), log, more);
        assert(with_input(rest, more) == (ConcatView { buf: full.buf.skip(h.size), ..full }));
    }
}

proof fn lemma_steps_more(st: ConcatView, logs: Seq<Seq<Exchange>>, more: Seq<u8>)
    requires
        !(steps(st, logs) is Mismatch),
    ensures
        steps(with_input(st, more), logs) == with_more(steps(st, logs), more),
    decreases logs.len(),
{
    if logs.len() > 0 {
        let before = steps(st, logs.drop_last());
        lemma_steps_more(st, logs.drop_last(), more);
        let state = before->Done_state;
        lemma_step_more(state, logs.last(), more);
    }
}

/// `o` with the events `before` in front of its own.
pub open spec fn behind(before: Seq<EventView>, o: Outcome) -> Outcome {
    match o {
        Outcome::Done { state, events } => Outcome::Done { state, events: before + events },
        other => other,
    }
}

/// Taking the boxes of `a` and then those of `b` is taking all of them.
pub proof fn lemma_steps_compose(st: ConcatView, a: Seq<Seq<Exchange>>, b: Seq<Seq<Exchange>>)
    requires
        steps(st, a) is Done,
    ensures
        steps(st, a + b) == behind(steps(st, a)->events, steps(steps(st, a)->Done_state, b)),
    decreases b.len(),
{
    let first = steps(st, a);
    let mid = first->Done_state;
    if b.len() == 0 {
        assert(a + b =~= a);
        assert(first->events + Seq::<EventView>::empty() =~= first->events);
    } else {
        assert((a + b).drop_last() =~= a + b.drop_last());
        assert((a + b).last() == b.last());
        lemma_steps_compose(st, a, b.drop_last());
        if let Outcome::Done { state, events } = steps(mid, b.drop_last()) {
            if let Outcome::Done { state: next, events: more } = step(state, b.last()) {
                assert(first->events + events + more =~= first->events + (events + more));
            }
        }
    }
}

/// What comes out does not depend on how the input is cut into pieces: feeding
/// `a` and then `b` takes the same boxes, with the same answers, to the same
/// state and events as feeding both at once.
pub proof fn law_pieces_do_not_matter(
    st: ConcatView,
    a: Seq<u8>,
    b: Seq<u8>,
    logs_a: Seq<Seq<Exchange>>,
    logs_b: Seq<Seq<Exchange>>,
)
    requires
        steps(with_input(st, a), logs_a) is Done,
    ensures
        ({
            let first = steps(with_input(st, a), logs_a);
            let second = steps(with_input(first->Done_state, b), logs_b);
            steps(with_input(st, a + b), logs_a + logs_b) == behind(first->events, second)
        }),
{
    let all = with_input(st, a + b);
    lemma_steps_more(with_input(st, a), logs_a, b);
    assert(with_input(with_input(st, a), b).buf =~= all.buf);
    assert(with_input(with_input(st, a), b) == all);
    lemma_steps_compose(all, logs_a, logs_b);
}

/// An init segment comes only where the catalog is not that of the last one.
pub proof fn law_init_only_on_change(st: ConcatView, data: Seq<u8>, log: Seq<Exchange>, i: int)
    requires
        take_moov(st, data, log) is Done,
        0 <= i < take_moov(st, data, log)->events.len(),
        take_moov(st, data, log)->events[i] is Init,
    ensures
        take_moov(st, data, log)->events[i]->catalog == take_moov(
            st,
            data,
            log,
        )->Done_state.catalog->Some_0,
        st.catalog != take_moov(st, data, log)->Done_state.catalog,
{
}

/// The end of the envelope of a flat MP4 cuts what is gathered, without waiting
/// for more input.
pub proof fn law_envelope_end_cuts(st: ConcatView, log: Seq<Exchange>)
    requires
        step(st, log) is Done,
        !is_envelope(st, front_box(st.buf)->Some_0),
        st.envelope matches Some(left) && left <= front_box(st.buf)->Some_0.size,
        front_box(st.buf)->Some_0.kind == MDAT || front_box(st.buf)->Some_0.kind == MOOF,
    ensures
        step(st, log)->Done_state.envelope is None,
        next_gop(step(st, log)->Done_state) is None,
{
    let h = front_box(st.buf)->Some_0;
    let rest = ConcatView { buf: st.buf.skip(h.size), ..st };
    let taken = take_box(rest, h.kind, st.buf.take(h.size), log);
    if h.kind == MDAT && log.len() == 1 {
        match log[0] {
            Exchange::Mint { moov, moof, payload, clocks, answer } => {
                match answer {
                    Ok(minted) => {
                        let stream = st.stream->Some_0;
                        let t = StreamView { moof: None, ..stream };
                        lemma_frames_keep_envelope(
                            ConcatView {
                                stream: Some(StreamView { clocks: minted.clocks@, ..t }),
                                ..rest
                            },
                            frames_view(minted.frames@),
                        );
                    },
                    Err(_) => {},
                }
            },
            _ => {},
        }
    }
    let mid = taken->Done_state;
    assert(mid.envelope == st.envelope);
    lemma_nothing_after_cut(ConcatView { envelope: None, ..mid });
}

proof fn lemma_frames_keep_envelope(st: ConcatView, fs: Seq<FrameView>)
    ensures
        after_frames(st, fs).0.envelope == st.envelope,
    decreases fs.len(),
{
    if fs.len() > 0 {
        lemma_frames_keep_envelope(st, fs.drop_last());
    }
}

/// After a cut nothing is gathered.
proof fn lemma_nothing_after_cut(st: ConcatView)
    ensures
        next_gop(after_cut(st)) is None,
{
    if next_gop(st) is Some {
        assert(live(Map::<u32, BufView>::empty()) =~= Set::<u32>::empty());
    }
}

/// Every track of a cut GOP begins with the `uuid` box of its file, and goes on
/// with what was gathered of it.
pub proof fn law_uuid_goes_first(st: ConcatView, tid: u32)
    requires
        next_gop(st) matches Some(g) && g.tracks.contains_key(tid),
    ensures
        st.bufs.contains_key(tid),
        next_gop(st)->Some_0.tracks[tid] == match st.uuid {
            Some(u) => u + st.bufs[tid].data,
            None => st.bufs[tid].data,
        },
{
}

} // verus!
