//! The event stream of a stored wrapper.
//!
//! Stored canonical segments drive playback like freshly segmented ones: the
//! events that the live segmenter would have sent are derived from the segments
//! again, and the segments go into them verbatim.

use std::collections::BTreeMap;

use vstd::prelude::*;
use vstd::slice::slice_to_vec;

use crate::catalog::{
    empty_catalog, merge_segment_catalog, merged, AudioConfigView, Catalog, CatalogView,
    VideoConfigView,
};
use crate::cbor::{
    init_event, keyed_bytes, ByteString, CborEvent, CborEventView, CborTrackSamples, GopEvent,
    METAFILE_VERSION,
};
use crate::error::{Error, ErrorView};
use crate::keymap::{Duplicate, KeyMap};
use crate::moof::{indexed, segment_index, IndexView, SegmentIndex};
use crate::present::slices;
use crate::reader::{
    all_decoded, are_decoded, splits, unwrap, unwrap_fails, wrapped_segments, Segment,
};
use crate::segment::{
    compute_duration_us, has_id, map_over, note_timescales, playable_us, sat64, track_scales,
    video_ids, video_track_ids,
};
use crate::stream::{contents, join, scan, scan_fault_text, scan_wrapper_stream};
use crate::text::{decimal, decimal_string, law_decimal_injective};

verus! {

/// The sum of `durations`.
pub open spec fn total_ticks(durations: Seq<u32>) -> int
    decreases durations.len(),
{
    if durations.len() == 0 {
        0
    } else {
        total_ticks(durations.drop_last()) + durations.last()
    }
}

/// Adds up `durations`, up to the largest `u64`.
pub fn sum_ticks(durations: &Vec<u32>) -> (r: u64)
    ensures
        r == sat64(total_ticks(durations@)),
{
    let mut sum: u64 = 0;
    let mut i: usize = 0;
    assert(durations@.take(0) =~= seq![]);
    while i < durations.len()
        invariant
            i <= durations@.len(),
            sum == sat64(total_ticks(durations@.take(i as int))),
            total_ticks(durations@.take(i as int)) >= 0,
        decreases durations@.len() - i,
    {
        assert(durations@.take(i + 1).drop_last() =~= durations@.take(i as int));
        sum = sum.saturating_add(durations[i] as u64);
        i += 1;
    }
    assert(durations@.take(i as int) =~= durations@);
    sum
}

/// The tracks that a catalog describes.
pub open spec fn catalog_ids(c: CatalogView) -> Set<u32> {
    Set::new(
        |t: u32|
            (c.video matches Some(v) && video_has(v.renditions, t)) || (c.audio matches Some(a)
                && audio_has(a, t)),
    )
}

/// Whether one of the video renditions is of track `t`.
pub open spec fn video_has(m: Map<Seq<char>, VideoConfigView>, t: u32) -> bool {
    exists|n: Seq<char>| #[trigger] m.contains_key(n) && m[n].track_id == t
}

/// Whether one of the audio renditions is of track `t`.
pub open spec fn audio_has(m: Map<Seq<char>, AudioConfigView>, t: u32) -> bool {
    exists|n: Seq<char>| #[trigger] m.contains_key(n) && m[n].track_id == t
}

/// Lists the tracks that a catalog describes.
pub fn catalog_track_ids(c: &Catalog) -> (r: Vec<u32>)
    ensures
        forall|t: u32| #[trigger] r@.contains(t) == catalog_ids(c@).contains(t),
{
    let mut out: Vec<u32> = Vec::new();
    if let Some(v) = &c.video {
        let n: usize = v.renditions.len();
        let mut i: usize = 0;
        while i < n
            invariant
                i <= n,
                n == v.renditions.order().len(),
                out@.len() == i,
                forall|j: int| 0 <= j < i ==> #[trigger] out@[j] == v.renditions.nth(j).track_id,
            decreases n - i,
        {
            out.push(v.renditions.value(i).track_id());
            i += 1;
        }
        proof {
            let m = v.renditions@;
            let order = v.renditions.order();
            assert forall|t: u32| #[trigger] out@.contains(t) == video_has(m, t) by {
                if out@.contains(t) {
                    let j = out@.index_of(t);
                    assert(m.contains_key(order[j]));
                    assert(m[order[j]] == v.renditions.nth(j)@);
                }
                if video_has(m, t) {
                    let k = choose|k: Seq<char>| #[trigger] m.contains_key(k) && m[k].track_id == t;
                    let j = order.index_of(k);
                    assert(order.contains(k));
                    assert(m[order[j]] == v.renditions.nth(j)@);
                    assert(out@[j] == t);
                }
            }
        }
    }
    let ghost video = out@;
    if let Some(a) = &c.audio {
        let n: usize = a.renditions.len();
        let mut i: usize = 0;
        while i < n
            invariant
                i <= n,
                n == a.renditions.order().len(),
                out@.len() == video.len() + i,
                out@.take(video.len() as int) == video,
                forall|j: int|
                    0 <= j < i ==> #[trigger] a.renditions.nth(j).track_id == out@[video.len() + j],
            decreases n - i,
        {
            let ghost before = out@;
            out.push(a.renditions.value(i).track_id());
            assert(out@.take(video.len() as int) =~= before.take(video.len() as int));
            i += 1;
        }
        proof {
            let m = a.renditions@;
            let order = a.renditions.order();
            assert forall|t: u32| #[trigger]
                out@.contains(t) == (video.contains(t) || audio_has(m, t)) by {
                if out@.contains(t) {
                    let x = out@.index_of(t);
                    if x < video.len() {
                        assert(out@.take(video.len() as int)[x] == t);
                    } else {
                        let j = x - video.len();
                        assert(a.renditions.nth(j).track_id == t);
                        assert(m.contains_key(order[j]));
                        assert(m[order[j]] == a.renditions.nth(j)@);
                    }
                }
                if video.contains(t) {
                    let x = video.index_of(t);
                    assert(out@.take(video.len() as int)[x] == t);
                    assert(out@[x] == t);
                }
                if audio_has(m, t) {
                    let k = choose|k: Seq<char>| #[trigger] m.contains_key(k) && m[k].track_id == t;
                    let j = order.index_of(k);
                    assert(order.contains(k));
                    assert(m[order[j]] == a.renditions.nth(j)@);
                    assert(out@[video.len() + j] == t);
                }
            }
        }
    }
    out
}

/// One canonical segment with what was read out of it.
pub struct Part {
    pub data: Seq<u8>,
    pub index: IndexView,
    pub catalog: Catalog,
}

/// An event that is due: an init segment of a catalog, which is still to be
/// built, or a GOP.
pub enum PlannedView {
    Init(CatalogView),
    Gop(GopEvent),
}

/// A GOP being gathered, with what its duration comes from.
pub struct OpenGop {
    /// The event, as it would be sent now.
    pub event: GopEvent,
    /// How many ticks each of its tracks lasts.
    pub ticks: Map<u32, u64>,
    /// Its video tracks.
    pub video: Seq<u32>,
}

/// What the events so far leave behind.
pub struct EventState {
    /// Catalog of every segment seen.
    pub running: CatalogView,
    /// Timescale of every track seen.
    pub scales: Map<u32, u32>,
    /// The tracks that the last init segment covers.
    pub covered: Set<u32>,
    pub init_sent: bool,
    /// Whether a track has come since that the last init segment lacks.
    pub new_track: bool,
    /// The GOP being gathered.
    pub open: Option<OpenGop>,
    /// The track of the last segment.
    pub last: Option<u32>,
}

/// Nothing seen yet.
pub open spec fn events_start() -> EventState {
    EventState {
        running: empty_catalog(),
        scales: Map::empty(),
        covered: Set::empty(),
        init_sent: false,
        new_track: false,
        open: None,
        last: None,
    }
}

/// The events due when the gathered GOP ends: an init segment before it, where
/// none was sent yet or where the last one lacks a track.
pub open spec fn closing_events(st: EventState) -> Seq<PlannedView> {
    match st.open {
        None => seq![],
        Some(g) => if !st.init_sent || st.new_track {
            seq![PlannedView::Init(st.running), PlannedView::Gop(g.event)]
        } else {
            seq![PlannedView::Gop(g.event)]
        },
    }
}

/// `st` once the gathered GOP has ended.
pub open spec fn closed(st: EventState) -> EventState {
    if st.open is Some && (!st.init_sent || st.new_track) {
        EventState {
            covered: catalog_ids(st.running),
            init_sent: true,
            new_track: false,
            open: None,
            ..st
        }
    } else {
        EventState { open: None, ..st }
    }
}

/// The GOP of no track.
pub open spec fn no_gop() -> OpenGop {
    OpenGop {
        event: GopEvent {
            tracks: Map::empty(),
            durations: Map::empty(),
            sample_counts: Map::empty(),
            samples: Map::empty(),
            track_byte_sizes: Map::empty(),
            first_decode_times: Map::empty(),
            body_size: 0,
            duration_us: 0,
        },
        ticks: Map::empty(),
        video: seq![],
    }
}

/// How many ticks the segment `p` lasts.
pub open spec fn ticks_of(p: Part) -> u64 {
    sat64(total_ticks(p.index.samples.durations))
}

/// Whether the segment `p` is of a video track.
pub open spec fn is_video(p: Part) -> bool {
    video_ids(&p.catalog).contains(p.index.track_id)
}

/// `g` with one more segment. The GOP lasts as long as its video track, or as its
/// longest track where there is no video.
pub open spec fn gop_with(g: OpenGop, p: Part, scales: Map<u32, u32>) -> OpenGop {
    let e = g.event;
    let tid = p.index.track_id;
    let key = decimal(tid as nat);
    let ticks = g.ticks.insert(tid, ticks_of(p));
    let video = if is_video(p) {
        g.video.push(tid)
    } else {
        g.video
    };
    OpenGop {
        event: GopEvent {
            tracks: e.tracks.insert(key, p.data),
            durations: e.durations.insert(key, ticks_of(p)),
            sample_counts: e.sample_counts.insert(key, p.index.samples.durations.len() as u32),
            samples: e.samples.insert(key, p.index.samples),
            track_byte_sizes: e.track_byte_sizes.insert(key, p.data.len() as u64),
            first_decode_times: e.first_decode_times.insert(key, p.index.first->Some_0),
            body_size: sat64(e.body_size + p.data.len()),
            duration_us: playable_us(ticks, scales, video),
        },
        ticks,
        video,
    }
}

/// Whether a segment of track `tid` begins a GOP: tracks ascend within a GOP.
pub open spec fn begins_gop(st: EventState, tid: u32) -> bool {
    match st.last {
        None => true,
        Some(prev) => tid <= prev,
    }
}

/// `st` with the segment `p` put into the gathered GOP.
pub open spec fn folded(st: EventState, p: Part) -> EventState {
    let scales = map_over(st.scales, track_scales(&p.catalog));
    EventState {
        running: merged(st.running, p.catalog@),
        scales,
        new_track: st.new_track || !st.covered.contains(p.index.track_id),
        open: Some(
            gop_with(
                match st.open {
                    Some(g) => g,
                    None => no_gop(),
                },
                p,
                scales,
            ),
        ),
        last: Some(p.index.track_id),
        ..st
    }
}

/// The state after the segment `p`. A GOP that it ends is closed before its
/// catalog is merged, so that the init segment sent with that GOP has the tracks
/// up to there and no others.
pub open spec fn next_state(st: EventState, p: Part) -> EventState {
    folded(
        if begins_gop(st, p.index.track_id) {
            closed(st)
        } else {
            st
        },
        p,
    )
}

/// The events due with the segment `p`.
pub open spec fn next_events(st: EventState, p: Part) -> Seq<PlannedView> {
    if begins_gop(st, p.index.track_id) {
        closing_events(st)
    } else {
        seq![]
    }
}

/// The state after `parts`.
pub open spec fn state_after(parts: Seq<Part>) -> EventState
    decreases parts.len(),
{
    if parts.len() == 0 {
        events_start()
    } else {
        next_state(state_after(parts.drop_last()), parts.last())
    }
}

/// The events due with `parts`, before the end of the stream is known.
pub open spec fn events_so_far(parts: Seq<Part>) -> Seq<PlannedView>
    decreases parts.len(),
{
    if parts.len() == 0 {
        seq![]
    } else {
        events_so_far(parts.drop_last()) + next_events(
            state_after(parts.drop_last()),
            parts.last(),
        )
    }
}

/// The events of a stream of `parts`.
pub open spec fn all_events(parts: Seq<Part>) -> Seq<PlannedView> {
    events_so_far(parts) + closing_events(state_after(parts))
}

/// An event that is due.
#[derive(Debug)]
pub enum Planned {
    /// An init segment of this catalog.
    Init(Catalog),
    /// A GOP.
    Gop(CborEvent),
}

impl View for Planned {
    type V = PlannedView;

    open spec fn view(&self) -> PlannedView {
        match self {
            Planned::Init(c) => PlannedView::Init(c@),
            Planned::Gop(e) => PlannedView::Gop(e@->Segment_0),
        }
    }
}

/// Contents of the events in `v`.
pub open spec fn planned_view(v: Seq<Planned>) -> Seq<PlannedView> {
    v.map_values(|p: Planned| p@)
}

/// Whether every GOP in `v` is a GOP event.
pub open spec fn gops_are_segments(v: Seq<Planned>) -> bool {
    forall|i: int|
        0 <= i < v.len() ==> (#[trigger] v[i] matches Planned::Gop(e) ==> e@ is Segment)
}

struct GopAccum {
    tracks: KeyMap<ByteString>,
    durations: KeyMap<u64>,
    sample_counts: KeyMap<u32>,
    samples: KeyMap<CborTrackSamples>,
    track_byte_sizes: KeyMap<u64>,
    first_decode_times: KeyMap<u64>,
    body_size: u64,
    duration_us: u64,
    ticks: BTreeMap<u32, u64>,
    video: Vec<u32>,
}

impl GopAccum {
    spec fn gathered(&self) -> OpenGop {
        OpenGop {
            event: GopEvent {
                tracks: self.tracks@,
                durations: self.durations@,
                sample_counts: self.sample_counts@,
                samples: self.samples@,
                track_byte_sizes: self.track_byte_sizes@,
                first_decode_times: self.first_decode_times@,
                body_size: self.body_size,
                duration_us: self.duration_us,
            },
            ticks: self.ticks@,
            video: self.video@,
        }
    }

    fn new() -> (r: Self)
        ensures
            r.gathered() == no_gop(),
    {
        GopAccum {
            tracks: KeyMap::new(),
            durations: KeyMap::new(),
            sample_counts: KeyMap::new(),
            samples: KeyMap::new(),
            track_byte_sizes: KeyMap::new(),
            first_decode_times: KeyMap::new(),
            body_size: 0,
            duration_us: 0,
            ticks: BTreeMap::new(),
            video: Vec::new(),
        }
    }

    fn fold(
        &mut self,
        data: &[u8],
        index: &SegmentIndex,
        catalog: &Catalog,
        scales: &BTreeMap<u32, u32>,
    )
        ensures
            final(self).gathered() == gop_with(
                old(self).gathered(),
                Part { data: data@, index: index_of(*index), catalog: *catalog },
                scales@,
            ),
    {
        let ticks: u64 = sum_ticks(&index.samples.durations);
        self.ticks.insert(index.track_id, ticks);
        if has_id(&video_track_ids(catalog), index.track_id) {
            self.video.push(index.track_id);
        }
        self.duration_us = compute_duration_us(&self.ticks, scales, &self.video);
        let tid: u64 = index.track_id as u64;
        self.body_size = self.body_size.saturating_add(data.len() as u64);
        self.durations.insert(decimal_string(tid), ticks);
        self.sample_counts.insert(decimal_string(tid), index.samples.durations.len() as u32);
        self.samples.insert(decimal_string(tid), CborTrackSamples::from(&index.samples));
        self.track_byte_sizes.insert(decimal_string(tid), data.len() as u64);
        self.first_decode_times.insert(decimal_string(tid), index.first_decode_time);
        self.tracks.insert(decimal_string(tid), ByteString(slice_to_vec(data)));
    }
}

/// Contents of a [`SegmentIndex`].
pub open spec fn index_of(x: SegmentIndex) -> IndexView {
    IndexView { track_id: x.track_id, samples: x.samples@, first: Some(x.first_decode_time) }
}

/// Turns canonical segments, in interleave order, into events. It holds no more
/// than one GOP.
pub struct EventBuilder {
    running: Catalog,
    scales: BTreeMap<u32, u32>,
    covered: Vec<u32>,
    init_sent: bool,
    new_track: bool,
    open: Option<GopAccum>,
    last: Option<u32>,
}

impl View for EventBuilder {
    type V = EventState;

    closed spec fn view(&self) -> EventState {
        EventState {
            running: self.running@,
            scales: self.scales@,
            covered: Set::new(|t: u32| self.covered@.contains(t)),
            init_sent: self.init_sent,
            new_track: self.new_track,
            open: match self.open {
                Some(g) => Some(g.gathered()),
                None => None,
            },
            last: self.last,
        }
    }
}

impl EventBuilder {
    /// A builder that has seen nothing yet.
    pub fn new() -> (r: Self)
        ensures
            r@ == events_start(),
    {
        let r = EventBuilder {
            running: Catalog::default(),
            scales: BTreeMap::new(),
            covered: Vec::new(),
            init_sent: false,
            new_track: false,
            open: None,
            last: None,
        };
        assert(r@.covered =~= Set::empty());
        r
    }

    /// Ends the gathered GOP, and hands out the events due with it.
    pub fn finish(&mut self) -> (r: Vec<Planned>)
        ensures
            planned_view(r@) == closing_events(old(self)@),
            final(self)@ == closed(old(self)@),
            gops_are_segments(r@),
    {
        let mut out: Vec<Planned> = Vec::new();
        let mut open: Option<GopAccum> = None;
        std::mem::swap(&mut open, &mut self.open);
        match open {
            None => {},
            Some(g) => {
                if !self.init_sent || self.new_track {
                    out.push(Planned::Init(self.running.duplicate()));
                    self.init_sent = true;
                    self.new_track = false;
                    self.covered = catalog_track_ids(&self.running);
                    assert(self@.covered =~= catalog_ids(self.running@));
                }
                let ghost event = g.gathered().event;
                out.push(
                    Planned::Gop(
                        CborEvent::Segment {
                            tracks: g.tracks,
                            durations: g.durations,
                            sample_counts: g.sample_counts,
                            samples: g.samples,
                            track_byte_sizes: g.track_byte_sizes,
                            first_decode_times: g.first_decode_times,
                            body_size: g.body_size,
                            duration_us: g.duration_us,
                        },
                    ),
                );
                assert(out@.last()@ == PlannedView::Gop(event));
            },
        }
        assert(planned_view(out@) =~= closing_events(old(self)@));
        out
    }

    /// Whether a segment of track `tid` begins a GOP.
    pub fn begins(&self, tid: u32) -> (r: bool)
        ensures
            r == begins_gop(self@, tid),
    {
        match self.last {
            None => true,
            Some(prev) => tid <= prev,
        }
    }

    /// Takes the next segment with what was read out of it, and hands out the
    /// events due with it.
    pub fn push(&mut self, data: &[u8], index: &SegmentIndex, catalog: &Catalog) -> (r: Vec<
        Planned,
    >)
        ensures
            ({
                let p = Part { data: data@, index: index_of(*index), catalog: *catalog };
                &&& planned_view(r@) == next_events(old(self)@, p)
                &&& final(self)@ == next_state(old(self)@, p)
                &&& gops_are_segments(r@)
            }),
    {
        let ghost p = Part { data: data@, index: index_of(*index), catalog: *catalog };
        let out = if self.begins(index.track_id) {
            self.finish()
        } else {
            Vec::new()
        };
        assert(planned_view(out@) =~= next_events(old(self)@, p));
        let ghost mid = self@;
        merge_segment_catalog(&mut self.running, catalog);
        note_timescales(&mut self.scales, catalog);
        if !has_id(&self.covered, index.track_id) {
            self.new_track = true;
        }
        let mut open: Option<GopAccum> = None;
        std::mem::swap(&mut open, &mut self.open);
        let mut gop = match open {
            Some(g) => g,
            None => GopAccum::new(),
        };
        gop.fold(data, index, catalog, &self.scales);
        let ghost base = match mid.open {
            Some(g) => g,
            None => no_gop(),
        };
        assert(gop.gathered() == gop_with(base, p, self.scales@));
        self.open = Some(gop);
        self.last = Some(index.track_id);
        assert(self@.covered =~= mid.covered);
        assert(self@ == folded(mid, p));
        out
    }
}

/// Whether `ev` is the event that is due as `p`.
pub open spec fn realizes<
    I: Fn(&Catalog) -> Result<Vec<u8>, Error>,
    T: Fn(&Catalog) -> Result<BTreeMap<u32, Vec<u8>>, Error>,
>(build_init: I, build_track_inits: T, p: PlannedView, ev: CborEvent) -> bool {
    match p {
        PlannedView::Gop(g) => ev@ == CborEventView::Segment(g),
        PlannedView::Init(c) => exists|
            cat: Catalog,
            inits: BTreeMap<u32, Vec<u8>>,
            data: Vec<u8>,
        |
            #![trigger call_ensures(build_track_inits, (&cat,), Ok::<BTreeMap<u32, Vec<u8>>, Error>(inits)), call_ensures(build_init, (&cat,), Ok::<Vec<u8>, Error>(data))]
            {
                &&& cat@ == c
                &&& call_ensures(
                    build_track_inits,
                    (&cat,),
                    Ok::<BTreeMap<u32, Vec<u8>>, Error>(inits),
                )
                &&& call_ensures(build_init, (&cat,), Ok::<Vec<u8>, Error>(data))
                &&& ev@ == init_event(c, data@, Ok::<BTreeMap<u32, Vec<u8>>, Error>(inits))
            },
    }
}

/// Whether one of the builders refused the catalog `c` with `e`.
pub open spec fn refuses<
    I: Fn(&Catalog) -> Result<Vec<u8>, Error>,
    T: Fn(&Catalog) -> Result<BTreeMap<u32, Vec<u8>>, Error>,
>(build_init: I, build_track_inits: T, c: CatalogView, e: Error) -> bool {
    ||| exists|cat: Catalog|
        cat@ == c && #[trigger] call_ensures(
            build_track_inits,
            (&cat,),
            Err::<BTreeMap<u32, Vec<u8>>, Error>(e),
        )
    ||| exists|cat: Catalog|
        cat@ == c && #[trigger] call_ensures(build_init, (&cat,), Err::<Vec<u8>, Error>(e))
}

/// Whether `evs` are the events that are due as `ps`.
pub open spec fn realized<
    I: Fn(&Catalog) -> Result<Vec<u8>, Error>,
    T: Fn(&Catalog) -> Result<BTreeMap<u32, Vec<u8>>, Error>,
>(build_init: I, build_track_inits: T, ps: Seq<PlannedView>, evs: Seq<CborEvent>) -> bool {
    evs.len() == ps.len() && forall|i: int|
        0 <= i < ps.len() ==> realizes(build_init, build_track_inits, #[trigger] ps[i], evs[i])
}

/// Builds the event that is due.
fn realize<
    I: Fn(&Catalog) -> Result<Vec<u8>, Error>,
    T: Fn(&Catalog) -> Result<BTreeMap<u32, Vec<u8>>, Error>,
>(planned: Planned, build_init: &I, build_track_inits: &T) -> (r: Result<CborEvent, Error>)
    requires
        forall|c: &Catalog| #[trigger] call_requires(*build_init, (c,)),
        forall|c: &Catalog| #[trigger] call_requires(*build_track_inits, (c,)),
        planned matches Planned::Gop(e) ==> e@ is Segment,
    ensures
        match r {
            Ok(ev) => realizes(*build_init, *build_track_inits, planned@, ev),
            Err(e) => planned@ matches PlannedView::Init(c) && refuses(
                *build_init,
                *build_track_inits,
                c,
                e,
            ),
        },
{
    match planned {
        Planned::Gop(e) => Ok(e),
        Planned::Init(catalog) => {
            let inits = match (*build_track_inits)(&catalog) {
                Ok(m) => m,
                Err(e) => {
                    assert(refuses(*build_init, *build_track_inits, catalog@, e));
                    return Err(e);
                },
            };
            let data = match (*build_init)(&catalog) {
                Ok(d) => d,
                Err(e) => {
                    assert(refuses(*build_init, *build_track_inits, catalog@, e));
                    return Err(e);
                },
            };
            let track_inits = keyed_bytes(&inits);
            let ghost d = data;
            let ev = CborEvent::Init {
                version: METAFILE_VERSION,
                data,
                catalog: Some(catalog.duplicate()),
                track_inits,
            };
            proof {
                assert(call_ensures(
                    *build_track_inits,
                    (&catalog,),
                    Ok::<BTreeMap<u32, Vec<u8>>, Error>(inits),
                ));
                assert(call_ensures(*build_init, (&catalog,), Ok::<Vec<u8>, Error>(d)));
                assert(ev@ == init_event(
                    catalog@,
                    d@,
                    Ok::<BTreeMap<u32, Vec<u8>>, Error>(inits),
                ));
            }
            Ok(ev)
        },
    }
}

/// Whether `evs` are the events due as `ps`: all of them, or those before the
/// first that cannot be built, as `r` tells.
pub open spec fn sends<
    I: Fn(&Catalog) -> Result<Vec<u8>, Error>,
    T: Fn(&Catalog) -> Result<BTreeMap<u32, Vec<u8>>, Error>,
>(
    build_init: I,
    build_track_inits: T,
    ps: Seq<PlannedView>,
    evs: Seq<CborEvent>,
    r: Result<(), Error>,
) -> bool {
    let n = evs.len() as int;
    &&& n <= ps.len()
    &&& realized(build_init, build_track_inits, ps.take(n), evs)
    &&& match r {
        Ok(_) => n == ps.len(),
        Err(e) => n < ps.len() && (ps[n] matches PlannedView::Init(c) && refuses(
            build_init,
            build_track_inits,
            c,
            e,
        )),
    }
}

/// Whether `after` begins with all of `before`.
pub open spec fn extends(before: Seq<CborEvent>, after: Seq<CborEvent>) -> bool {
    before.len() <= after.len() && after.take(before.len() as int) == before
}

/// What `after` has beyond `before`.
pub open spec fn added(before: Seq<CborEvent>, after: Seq<CborEvent>) -> Seq<CborEvent> {
    after.skip(before.len() as int)
}

/// Builds the events that are due, in order, up to the first that fails.
fn realize_all<
    I: Fn(&Catalog) -> Result<Vec<u8>, Error>,
    T: Fn(&Catalog) -> Result<BTreeMap<u32, Vec<u8>>, Error>,
>(planned: Vec<Planned>, build_init: &I, build_track_inits: &T, out: &mut Vec<CborEvent>) -> (r:
    Result<(), Error>)
    requires
        forall|c: &Catalog| #[trigger] call_requires(*build_init, (c,)),
        forall|c: &Catalog| #[trigger] call_requires(*build_track_inits, (c,)),
        gops_are_segments(planned@),
    ensures
        extends(old(out)@, final(out)@),
        sends(
            *build_init,
            *build_track_inits,
            planned_view(planned@),
            added(old(out)@, final(out)@),
            r,
        ),
{
    let ghost ps = planned_view(planned@);
    let ghost base = out@;
    let ghost mut n: int = 0;
    let mut rest = planned;
    let mut queue: Vec<Planned> = Vec::new();
    let ghost whole = rest@;
    while rest.len() > 0
        invariant
            queue@.len() + rest@.len() == whole.len(),
            rest@ == whole.take(rest@.len() as int),
            forall|j: int| 0 <= j < queue@.len() ==> #[trigger] queue@[j] == whole[whole.len() - 1 - j],
        decreases rest@.len(),
    {
        match rest.pop() {
            None => {},
            Some(p) => {
                queue.push(p);
            },
        }
        assert(rest@ =~= whole.take(rest@.len() as int));
    }
    assert(out@.take(base.len() as int) =~= base);
    assert(out@.skip(base.len() as int) =~= seq![]);
    while queue.len() > 0
        invariant
            ps == planned_view(whole),
            gops_are_segments(whole),
            n + queue@.len() == whole.len(),
            0 <= n,
            forall|j: int| 0 <= j < queue@.len() ==> #[trigger] queue@[j] == whole[whole.len() - 1 - j],
            forall|c: &Catalog| #[trigger] call_requires(*build_init, (c,)),
            forall|c: &Catalog| #[trigger] call_requires(*build_track_inits, (c,)),
            out@.len() == base.len() + n,
            base == old(out)@,
            whole == planned@,
            out@.take(base.len() as int) == base,
            realized(*build_init, *build_track_inits, ps.take(n), out@.skip(base.len() as int)),
        decreases queue@.len(),
    {
        match queue.pop() {
            None => {},
            Some(p) => {
                assert(p == whole[n]);
                match realize(p, build_init, build_track_inits) {
                    Err(e) => {
                        return Err(e);
                    },
                    Ok(ev) => {
                        let ghost before = out@;
                        out.push(ev);
                        proof {
                            let evs = before.skip(base.len() as int);
                            assert(out@.skip(base.len() as int) =~= evs.push(ev));
                            assert(out@.take(base.len() as int) =~= base);
                            assert forall|i: int| 0 <= i < n + 1 implies realizes(
                                *build_init,
                                *build_track_inits,
                                #[trigger] ps.take(n + 1)[i],
                                evs.push(ev)[i],
                            ) by {
                                if i < n {
                                    assert(ps.take(n)[i] == ps.take(n + 1)[i]);
                                }
                            }
                            n = n + 1;
                        }
                    },
                }
            },
        }
    }
    Ok(())
}

/// Whether `parts` are the first of the segments `segs`, read.
pub open spec fn read_parts<D: Fn(&[u8]) -> Result<Catalog, Error>>(
    decode: D,
    segs: Seq<Seq<u8>>,
    parts: Seq<Part>,
) -> bool {
    parts.len() <= segs.len() && forall|i: int|
        0 <= i < parts.len() ==> is_read(decode, segs[i], #[trigger] parts[i])
}

/// Whether `p` is what is read out of the segment `data`.
pub open spec fn is_read<D: Fn(&[u8]) -> Result<Catalog, Error>>(
    decode: D,
    data: Seq<u8>,
    p: Part,
) -> bool {
    &&& p.data == data
    &&& indexed(data) == Ok::<IndexView, Seq<char>>(p.index)
    &&& exists|d: &[u8]|
        d@ == data && #[trigger] call_ensures(decode, (d,), Ok::<Catalog, Error>(p.catalog))
}

/// Whether the next segment `data`, after `parts`, cannot be read, for the
/// reason `e`; `ps` are the events due until then. What a segment closes is sent
/// before its catalog is decoded.
pub open spec fn unreadable<D: Fn(&[u8]) -> Result<Catalog, Error>>(
    decode: D,
    parts: Seq<Part>,
    data: Seq<u8>,
    ps: Seq<PlannedView>,
    e: Error,
) -> bool {
    match indexed(data) {
        Err(t) => ps == events_so_far(parts) && e@ == ErrorView::InvalidMp4(t),
        Ok(x) => {
            &&& ps == if begins_gop(state_after(parts), x.track_id) {
                all_events(parts)
            } else {
                events_so_far(parts)
            }
            &&& exists|d: &[u8]|
                d@ == data && #[trigger] call_ensures(decode, (d,), Err::<Catalog, Error>(e))
        },
    }
}

/// Whether the gathered GOP ends after `parts`, the first of the segments `segs`: the
/// stream ends there, or the next segment begins a GOP.
pub open spec fn closes_after(segs: Seq<Seq<u8>>, parts: Seq<Part>) -> bool {
    ||| parts.len() == segs.len()
    ||| indexed(segs[parts.len() as int]) matches Ok(x) && begins_gop(
        state_after(parts),
        x.track_id,
    )
}

/// Whether the events of the segments `segs` stop with `e` after `evs`: a
/// segment cannot be read, or an init segment cannot be built.
pub open spec fn stopped<
    D: Fn(&[u8]) -> Result<Catalog, Error>,
    I: Fn(&Catalog) -> Result<Vec<u8>, Error>,
    T: Fn(&Catalog) -> Result<BTreeMap<u32, Vec<u8>>, Error>,
>(
    decode: D,
    build_init: I,
    build_track_inits: T,
    segs: Seq<Seq<u8>>,
    evs: Seq<CborEvent>,
    e: Error,
) -> bool {
    exists|parts: Seq<Part>, ps: Seq<PlannedView>|
        {
            &&& #[trigger] read_parts(decode, segs, parts)
            &&& #[trigger] realized(build_init, build_track_inits, ps, evs)
            &&& {
                ||| parts.len() < segs.len() && unreadable(
                    decode,
                    parts,
                    segs[parts.len() as int],
                    ps,
                    e,
                )
                ||| {
                    &&& closes_after(segs, parts)
                    &&& ps.len() < all_events(parts).len()
                    &&& ps == all_events(parts).take(ps.len() as int)
                    &&& all_events(parts)[ps.len() as int] matches PlannedView::Init(c)
                        && refuses(build_init, build_track_inits, c, e)
                }
            }
        }
}

/// Whether `evs` are the events due with the segments `segs`, the end of the
/// stream being known or not.
pub open spec fn streamed<
    D: Fn(&[u8]) -> Result<Catalog, Error>,
    I: Fn(&Catalog) -> Result<Vec<u8>, Error>,
    T: Fn(&Catalog) -> Result<BTreeMap<u32, Vec<u8>>, Error>,
>(
    decode: D,
    build_init: I,
    build_track_inits: T,
    segs: Seq<Seq<u8>>,
    evs: Seq<CborEvent>,
    ended: bool,
) -> bool {
    exists|parts: Seq<Part>| #[trigger]
        read_parts(decode, segs, parts) && parts.len() == segs.len() && realized(
            build_init,
            build_track_inits,
            if ended {
                all_events(parts)
            } else {
                events_so_far(parts)
            },
            evs,
        )
}

proof fn lemma_realized_append<
    I: Fn(&Catalog) -> Result<Vec<u8>, Error>,
    T: Fn(&Catalog) -> Result<BTreeMap<u32, Vec<u8>>, Error>,
>(
    build_init: I,
    build_track_inits: T,
    ps: Seq<PlannedView>,
    evs: Seq<CborEvent>,
    more: Seq<PlannedView>,
    added: Seq<CborEvent>,
)
    requires
        realized(build_init, build_track_inits, ps, evs),
        realized(build_init, build_track_inits, more, added),
    ensures
        realized(build_init, build_track_inits, ps + more, evs + added),
{
    assert forall|i: int| 0 <= i < (ps + more).len() implies realizes(
        build_init,
        build_track_inits,
        #[trigger] (ps + more)[i],
        (evs + added)[i],
    ) by {
        if i < ps.len() {
            assert(realizes(build_init, build_track_inits, ps[i], evs[i]));
        } else {
            let j = i - ps.len();
            assert(realizes(build_init, build_track_inits, more[j], added[j]));
        }
    }
}

/// Whether a builder in the state `st` takes the segment `data` as `r` tells,
/// sends `evs` and is left in the state `next`. What the segment closes is sent
/// before its catalog is decoded.
pub open spec fn takes<
    D: Fn(&[u8]) -> Result<Catalog, Error>,
    I: Fn(&Catalog) -> Result<Vec<u8>, Error>,
    T: Fn(&Catalog) -> Result<BTreeMap<u32, Vec<u8>>, Error>,
>(
    decode: D,
    build_init: I,
    build_track_inits: T,
    st: EventState,
    data: Seq<u8>,
    next: EventState,
    evs: Seq<CborEvent>,
    r: Result<(), Error>,
) -> bool {
    match indexed(data) {
        Err(t) => {
            &&& r matches Err(e) && e@ == ErrorView::InvalidMp4(t)
            &&& evs.len() == 0
            &&& next == st
        },
        Ok(x) => {
            let ps = closed_by(st, x.track_id);
            ||| r is Err && sends(build_init, build_track_inits, ps, evs, r)
            ||| {
                &&& realized(build_init, build_track_inits, ps, evs)
                &&& match r {
                    Ok(_) => exists|p: Part| #[trigger]
                        is_read(decode, data, p) && next == next_state(st, p),
                    Err(e) => exists|d: &[u8]|
                        d@ == data && #[trigger] call_ensures(
                            decode,
                            (d,),
                            Err::<Catalog, Error>(e),
                        ),
                }
            }
        },
    }
}

/// The events that a segment of track `tid` closes.
pub open spec fn closed_by(st: EventState, tid: u32) -> Seq<PlannedView> {
    if begins_gop(st, tid) {
        closing_events(st)
    } else {
        seq![]
    }
}

impl EventBuilder {
    /// Sends what is due when the stream ends.
    pub fn end<
        I: Fn(&Catalog) -> Result<Vec<u8>, Error>,
        T: Fn(&Catalog) -> Result<BTreeMap<u32, Vec<u8>>, Error>,
    >(&mut self, build_init: &I, build_track_inits: &T, out: &mut Vec<CborEvent>) -> (r: Result<
        (),
        Error,
    >)
        requires
            forall|c: &Catalog| #[trigger] call_requires(*build_init, (c,)),
            forall|c: &Catalog| #[trigger] call_requires(*build_track_inits, (c,)),
        ensures
            final(self)@ == closed(old(self)@),
            extends(old(out)@, final(out)@),
            sends(
                *build_init,
                *build_track_inits,
                closing_events(old(self)@),
                added(old(out)@, final(out)@),
                r,
            ),
    {
        let planned = self.finish();
        realize_all(planned, build_init, build_track_inits, out)
    }

    /// Takes the next segment of a stream, and sends what is due with it.
    ///
    /// `decode` reads the catalog out of a segment; `build_init` and
    /// `build_track_inits` make the init segment of a catalog and those of its
    /// tracks.
    pub fn take<
        D: Fn(&[u8]) -> Result<Catalog, Error>,
        I: Fn(&Catalog) -> Result<Vec<u8>, Error>,
        T: Fn(&Catalog) -> Result<BTreeMap<u32, Vec<u8>>, Error>,
    >(
        &mut self,
        segment: &[u8],
        decode: &D,
        build_init: &I,
        build_track_inits: &T,
        out: &mut Vec<CborEvent>,
    ) -> (r: Result<(), Error>)
        requires
            forall|d: &[u8]| #[trigger] call_requires(*decode, (d,)),
            forall|c: &Catalog| #[trigger] call_requires(*build_init, (c,)),
            forall|c: &Catalog| #[trigger] call_requires(*build_track_inits, (c,)),
        ensures
            extends(old(out)@, final(out)@),
            takes(
                *decode,
                *build_init,
                *build_track_inits,
                old(self)@,
                segment@,
                final(self)@,
                added(old(out)@, final(out)@),
                r,
            ),
    {
        assert(out@.take(out@.len() as int) =~= out@);
        assert(added(out@, out@) =~= seq![]);
        let index = match segment_index(segment) {
            Ok(x) => x,
            Err(e) => {
                return Err(e);
            },
        };
        let ghost st = self@;
        let ghost ps = closed_by(st, index.track_id);
        let begins: bool = self.begins(index.track_id);
        if begins {
            match self.end(build_init, build_track_inits, out) {
                Err(e) => {
                    return Err(e);
                },
                Ok(()) => {},
            }
        }
        assert(ps.take(ps.len() as int) =~= ps);
        let catalog = match (*decode)(segment) {
            Ok(c) => c,
            Err(e) => {
                assert(call_ensures(*decode, (segment,), Err::<Catalog, Error>(e)));
                return Err(e);
            },
        };
        let ghost p = Part { data: segment@, index: index_of(index), catalog };
        let none = self.push(segment, &index, &catalog);
        proof {
            assert(call_ensures(*decode, (segment,), Ok::<Catalog, Error>(p.catalog)));
            assert(is_read(*decode, segment@, p));
            assert(self@ == next_state(st, p));
        }
        Ok(())
    }
}

/// What is sent with the segments so far and what is sent next, together.
proof fn lemma_sends_append<
    I: Fn(&Catalog) -> Result<Vec<u8>, Error>,
    T: Fn(&Catalog) -> Result<BTreeMap<u32, Vec<u8>>, Error>,
>(
    build_init: I,
    build_track_inits: T,
    base: Seq<CborEvent>,
    before: Seq<CborEvent>,
    after: Seq<CborEvent>,
    ps: Seq<PlannedView>,
    more: Seq<PlannedView>,
    r: Result<(), Error>,
)
    requires
        extends(base, before),
        extends(before, after),
        realized(build_init, build_track_inits, ps, added(base, before)),
        sends(build_init, build_track_inits, more, added(before, after), r),
    ensures
        extends(base, after),
        sends(build_init, build_track_inits, ps + more, added(base, after), r),
{
    let n = added(before, after).len() as int;
    lemma_realized_append(
        build_init,
        build_track_inits,
        ps,
        added(base, before),
        more.take(n),
        added(before, after),
    );
    assert(after.take(base.len() as int) =~= before.take(base.len() as int)) by {
        assert(after.take(before.len() as int).take(base.len() as int) =~= after.take(
            base.len() as int,
        ));
    }
    assert(added(base, after) =~= added(base, before) + added(before, after)) by {
        assert(after =~= before + added(before, after));
    }
    assert((ps + more).take(ps.len() + n) =~= ps + more.take(n));
}

/// A stream stops where an init segment that is due cannot be built.
proof fn lemma_refused<
    D: Fn(&[u8]) -> Result<Catalog, Error>,
    I: Fn(&Catalog) -> Result<Vec<u8>, Error>,
    T: Fn(&Catalog) -> Result<BTreeMap<u32, Vec<u8>>, Error>,
>(
    decode: D,
    build_init: I,
    build_track_inits: T,
    segs: Seq<Seq<u8>>,
    parts: Seq<Part>,
    evs: Seq<CborEvent>,
    r: Result<(), Error>,
)
    requires
        read_parts(decode, segs, parts),
        closes_after(segs, parts),
        sends(build_init, build_track_inits, all_events(parts), evs, r),
        r is Err,
    ensures
        stopped(decode, build_init, build_track_inits, segs, evs, r->Err_0),
{
    let ps = all_events(parts).take(evs.len() as int);
    assert(read_parts(decode, segs, parts));
    assert(realized(build_init, build_track_inits, ps, evs));
    assert(ps.len() == evs.len());
}

/// A stream stops where a segment is not taken.
proof fn lemma_stops<
    D: Fn(&[u8]) -> Result<Catalog, Error>,
    I: Fn(&Catalog) -> Result<Vec<u8>, Error>,
    T: Fn(&Catalog) -> Result<BTreeMap<u32, Vec<u8>>, Error>,
>(
    decode: D,
    build_init: I,
    build_track_inits: T,
    segs: Seq<Seq<u8>>,
    parts: Seq<Part>,
    base: Seq<CborEvent>,
    before: Seq<CborEvent>,
    after: Seq<CborEvent>,
    next: EventState,
    e: Error,
)
    requires
        parts.len() < segs.len(),
        read_parts(decode, segs, parts),
        extends(base, before),
        extends(before, after),
        realized(build_init, build_track_inits, events_so_far(parts), added(base, before)),
        takes(
            decode,
            build_init,
            build_track_inits,
            state_after(parts),
            segs[parts.len() as int],
            next,
            added(before, after),
            Err(e),
        ),
    ensures
        extends(base, after),
        stopped(decode, build_init, build_track_inits, segs, added(base, after), e),
{
    let data = segs[parts.len() as int];
    let st = state_after(parts);
    let evs = added(before, after);
    let r = Err::<(), Error>(e);
    match indexed(data) {
        Err(_) => {
            assert(after =~= before) by {
                assert(after.take(before.len() as int) =~= after);
            }
            let ps = events_so_far(parts);
            assert(unreadable(decode, parts, data, ps, e));
            assert(realized(build_init, build_track_inits, ps, added(base, after)));
        },
        Ok(x) => {
            let more = closed_by(st, x.track_id);
            if sends(build_init, build_track_inits, more, evs, r) {
                lemma_sends_append(
                    build_init,
                    build_track_inits,
                    base,
                    before,
                    after,
                    events_so_far(parts),
                    more,
                    r,
                );
                assert(more == closing_events(st));
                assert(begins_gop(st, x.track_id));
                lemma_refused(
                    decode,
                    build_init,
                    build_track_inits,
                    segs,
                    parts,
                    added(base, after),
                    r,
                );
            } else {
                assert(more.take(more.len() as int) =~= more);
                lemma_sends_append(
                    build_init,
                    build_track_inits,
                    base,
                    before,
                    after,
                    events_so_far(parts),
                    more,
                    Ok(()),
                );
                let ps = events_so_far(parts) + more;
                assert(ps.take(ps.len() as int) =~= ps);
                assert(ps =~= if begins_gop(st, x.track_id) {
                    all_events(parts)
                } else {
                    events_so_far(parts)
                });
                assert(unreadable(decode, parts, data, ps, e));
                assert(realized(build_init, build_track_inits, ps, added(base, after)));
            }
        },
    }
}

/// Sends the events due with the segments, and where the stream has ended those
/// due at its end.
fn send_segments<
    D: Fn(&[u8]) -> Result<Catalog, Error>,
    I: Fn(&Catalog) -> Result<Vec<u8>, Error>,
    T: Fn(&Catalog) -> Result<BTreeMap<u32, Vec<u8>>, Error>,
>(
    segments: &[&[u8]],
    decode: &D,
    build_init: &I,
    build_track_inits: &T,
    out: &mut Vec<CborEvent>,
    ended: bool,
) -> (r: Result<(), Error>)
    requires
        forall|d: &[u8]| #[trigger] call_requires(*decode, (d,)),
        forall|c: &Catalog| #[trigger] call_requires(*build_init, (c,)),
        forall|c: &Catalog| #[trigger] call_requires(*build_track_inits, (c,)),
    ensures
        ({
            let segs = slices(segments@);
            let evs = final(out)@.skip(old(out)@.len() as int);
            &&& old(out)@.len() <= final(out)@.len()
            &&& final(out)@.take(old(out)@.len() as int) == old(out)@
            &&& match r {
                Ok(_) => streamed(*decode, *build_init, *build_track_inits, segs, evs, ended),
                Err(e) => stopped(*decode, *build_init, *build_track_inits, segs, evs, e),
            }
        }),
{
    let ghost segs = slices(segments@);
    let ghost base = out@;
    let ghost mut parts: Seq<Part> = seq![];
    let mut builder = EventBuilder::new();
    let mut i: usize = 0;
    proof {
        assert(out@.take(base.len() as int) =~= base);
        assert(added(base, out@) =~= seq![]);
    }
    while i < segments.len()
        invariant
            i <= segments@.len(),
            segs == slices(segments@),
            base == old(out)@,
            forall|d: &[u8]| #[trigger] call_requires(*decode, (d,)),
            forall|c: &Catalog| #[trigger] call_requires(*build_init, (c,)),
            forall|c: &Catalog| #[trigger] call_requires(*build_track_inits, (c,)),
            parts.len() == i,
            read_parts(*decode, segs, parts),
            builder@ == state_after(parts),
            extends(base, out@),
            realized(*build_init, *build_track_inits, events_so_far(parts), added(base, out@)),
        decreases segments@.len() - i,
    {
        let seg = segments[i];
        assert(segs[i as int] == seg@);
        let ghost before = out@;
        let r = builder.take(seg, decode, build_init, build_track_inits, out);
        if let Err(e) = r {
            proof {
                lemma_stops(
                    *decode,
                    *build_init,
                    *build_track_inits,
                    segs,
                    parts,
                    base,
                    before,
                    out@,
                    builder@,
                    e,
                );
            }
            return Err(e);
        }
        proof {
            let p = choose|p: Part| #[trigger]
                is_read(*decode, seg@, p) && builder@ == next_state(state_after(parts), p);
            let more = parts.push(p);
            let ps = next_events(state_after(parts), p);
            assert(more.drop_last() =~= parts);
            assert(ps =~= closed_by(state_after(parts), p.index.track_id));
            assert(ps.take(ps.len() as int) =~= ps);
            lemma_sends_append(
                *build_init,
                *build_track_inits,
                base,
                before,
                out@,
                events_so_far(parts),
                ps,
                Ok(()),
            );
            let all = events_so_far(more);
            assert(all.take(all.len() as int) =~= all);
            assert forall|j: int| 0 <= j < more.len() implies is_read(
                *decode,
                segs[j],
                #[trigger] more[j],
            ) by {
                if j < i {
                    assert(more[j] == parts[j]);
                }
            }
            parts = more;
        }
        i += 1;
    }
    assert(read_parts(*decode, segs, parts));
    if ended {
        let ghost before = out@;
        let r = builder.end(build_init, build_track_inits, out);
        proof {
            lemma_sends_append(
                *build_init,
                *build_track_inits,
                base,
                before,
                out@,
                events_so_far(parts),
                closing_events(state_after(parts)),
                r,
            );
            let all = all_events(parts);
            assert(all.take(all.len() as int) =~= all);
            if r is Err {
                lemma_refused(
                    *decode,
                    *build_init,
                    *build_track_inits,
                    segs,
                    parts,
                    added(base, out@),
                    r,
                );
            }
        }
        return r;
    }
    Ok(())
}

/// Whether the wrapper `s`, read whole, gives the events `evs` and ends as `r` tells. What
/// was due before a failure is sent; a segment that cannot be decoded fails before any.
pub open spec fn slurps<
    D: Fn(&[u8]) -> Result<Catalog, Error>,
    I: Fn(&Catalog) -> Result<Vec<u8>, Error>,
    T: Fn(&Catalog) -> Result<BTreeMap<u32, Vec<u8>>, Error>,
>(
    decode: D,
    build_init: I,
    build_track_inits: T,
    s: Seq<u8>,
    evs: Seq<CborEvent>,
    r: Result<(), Error>,
) -> bool {
    let segs = wrapped_segments(s);
    match r {
        Ok(_) => splits(s) && streamed(decode, build_init, build_track_inits, segs, evs, true),
        Err(e) => {
            ||| evs.len() == 0 && unwrap_fails(s, decode, e)
            ||| splits(s) && all_decoded(decode, segs) && stopped(
                decode,
                build_init,
                build_track_inits,
                segs,
                evs,
                e,
            )
        },
    }
}

/// Appends the events of the wrapper `bytes` to `out`, each as it becomes due. What was
/// due before a failure stays in `out`.
fn gather_events<
    D: Fn(&[u8]) -> Result<Catalog, Error>,
    I: Fn(&Catalog) -> Result<Vec<u8>, Error>,
    T: Fn(&Catalog) -> Result<BTreeMap<u32, Vec<u8>>, Error>,
>(
    bytes: &[u8],
    decode: &D,
    build_init: &I,
    build_track_inits: &T,
    out: &mut Vec<CborEvent>,
) -> (r: Result<(), Error>)
    requires
        forall|d: &[u8]| #[trigger] call_requires(*decode, (d,)),
        forall|c: &Catalog| #[trigger] call_requires(*build_init, (c,)),
        forall|c: &Catalog| #[trigger] call_requires(*build_track_inits, (c,)),
    ensures
        old(out)@.len() <= final(out)@.len(),
        final(out)@.take(old(out)@.len() as int) == old(out)@,
        slurps(
            *decode,
            *build_init,
            *build_track_inits,
            bytes@,
            final(out)@.skip(old(out)@.len() as int),
            r,
        ),
{
    let segs = match unwrap(bytes, decode) {
        Ok(s) => s,
        Err(e) => {
            assert(out@.take(out@.len() as int) =~= out@);
            return Err(e);
        },
    };
    let mut parts: Vec<&[u8]> = Vec::new();
    let mut i: usize = 0;
    while i < segs.len()
        invariant
            i <= segs@.len(),
            parts@.len() == i,
            forall|j: int| 0 <= j < i ==> #[trigger] parts@[j] == segs@[j].data,
        decreases segs@.len() - i,
    {
        parts.push(segs[i].data);
        i += 1;
    }
    proof {
        let all = segs@.map_values(|s: Segment| s.data@);
        assert(slices(parts@) =~= all);
        assert(are_decoded(*decode, all, segs@));
    }
    send_segments(parts.as_slice(), decode, build_init, build_track_inits, out, true)
}

/// Whether `emit` took the first `n` of the events `evs`.
pub open spec fn accepted<E: Fn(CborEvent) -> Result<(), Error>>(
    emit: E,
    evs: Seq<CborEvent>,
    n: int,
) -> bool {
    0 <= n <= evs.len() && forall|i: int|
        0 <= i < n ==> call_ensures(emit, (#[trigger] evs[i],), Ok::<(), Error>(()))
}

/// Whether the events `evs`, whose source ends as `s` tells, are handed to `emit` with the
/// result `r`: one after the other, up to the first that it refuses. That refusal is the
/// result, else `s` is.
pub open spec fn handed<E: Fn(CborEvent) -> Result<(), Error>>(
    emit: E,
    evs: Seq<CborEvent>,
    s: Result<(), Error>,
    r: Result<(), Error>,
) -> bool {
    exists|n: int| #[trigger]
        accepted(emit, evs, n) && if n == evs.len() {
            r == s
        } else {
            r matches Err(e) && call_ensures(emit, (evs[n],), Err::<(), Error>(e))
        }
}

/// Hands the events to `emit`, one after the other, up to the first that it refuses.
fn hand_over<E: Fn(CborEvent) -> Result<(), Error>>(
    events: Vec<CborEvent>,
    end: Result<(), Error>,
    emit: &E,
) -> (r: Result<(), Error>)
    requires
        forall|e: CborEvent| #[trigger] call_requires(*emit, (e,)),
    ensures
        handed(*emit, events@, end, r),
{
    let ghost evs = events@;
    let mut rest = events;
    let mut queue: Vec<CborEvent> = Vec::new();
    while rest.len() > 0
        invariant
            queue@.len() + rest@.len() == evs.len(),
            rest@ == evs.take(rest@.len() as int),
            forall|j: int| 0 <= j < queue@.len() ==> #[trigger] queue@[j] == evs[evs.len() - 1 - j],
        decreases rest@.len(),
    {
        match rest.pop() {
            None => {},
            Some(e) => {
                queue.push(e);
            },
        }
        assert(rest@ =~= evs.take(rest@.len() as int));
    }
    let ghost mut n: int = 0;
    while queue.len() > 0
        invariant
            n + queue@.len() == evs.len(),
            forall|j: int| 0 <= j < queue@.len() ==> #[trigger] queue@[j] == evs[evs.len() - 1 - j],
            forall|e: CborEvent| #[trigger] call_requires(*emit, (e,)),
            accepted(*emit, evs, n),
            evs == events@,
        decreases queue@.len(),
    {
        match queue.pop() {
            None => {},
            Some(e) => {
                assert(e == evs[n]);
                let answer = (*emit)(e);
                assert(call_ensures(*emit, (evs[n],), answer));
                match answer {
                    Err(refusal) => {
                        assert(accepted(*emit, evs, n));
                        return Err(refusal);
                    },
                    Ok(u) => {
                        assert(u == ());
                    },
                }
                proof {
                    n = n + 1;
                    assert forall|i: int| 0 <= i < n implies call_ensures(
                        *emit,
                        (#[trigger] evs[i],),
                        Ok::<(), Error>(()),
                    ) by {
                    }
                }
            },
        }
    }
    assert(accepted(*emit, evs, n));
    end
}

/// Hands the events of the wrapper `bytes` (a bare segment stream, a fragmented or a flat
/// MP4) to `emit`, in order. Where `emit` refuses one, its failure is returned and no
/// further event is handed over.
///
/// `decode` reads the catalog out of a segment; `build_init` and
/// `build_track_inits` make the init segment of a catalog and those of its
/// tracks. What was due before a failure is handed over.
pub fn segment_events_streaming<
    D: Fn(&[u8]) -> Result<Catalog, Error>,
    I: Fn(&Catalog) -> Result<Vec<u8>, Error>,
    T: Fn(&Catalog) -> Result<BTreeMap<u32, Vec<u8>>, Error>,
    E: Fn(CborEvent) -> Result<(), Error>,
>(
    bytes: &[u8],
    decode: &D,
    build_init: &I,
    build_track_inits: &T,
    emit: &E,
) -> (r: Result<(), Error>)
    requires
        forall|d: &[u8]| #[trigger] call_requires(*decode, (d,)),
        forall|c: &Catalog| #[trigger] call_requires(*build_init, (c,)),
        forall|c: &Catalog| #[trigger] call_requires(*build_track_inits, (c,)),
        forall|e: CborEvent| #[trigger] call_requires(*emit, (e,)),
    ensures
        exists|evs: Seq<CborEvent>, s: Result<(), Error>| #[trigger]
            slurps(*decode, *build_init, *build_track_inits, bytes@, evs, s) && handed(
                *emit,
                evs,
                s,
                r,
            ),
{
    let mut events: Vec<CborEvent> = Vec::new();
    let end = gather_events(bytes, decode, build_init, build_track_inits, &mut events);
    assert(events@.skip(0) =~= events@);
    hand_over(events, end, emit)
}

/// The events of the wrapper `bytes`, as [`segment_events_streaming`] hands them
/// over.
pub fn segment_events<
    D: Fn(&[u8]) -> Result<Catalog, Error>,
    I: Fn(&Catalog) -> Result<Vec<u8>, Error>,
    T: Fn(&Catalog) -> Result<BTreeMap<u32, Vec<u8>>, Error>,
>(bytes: &[u8], decode: &D, build_init: &I, build_track_inits: &T) -> (r: Result<
    Vec<CborEvent>,
    Error,
>)
    requires
        forall|d: &[u8]| #[trigger] call_requires(*decode, (d,)),
        forall|c: &Catalog| #[trigger] call_requires(*build_init, (c,)),
        forall|c: &Catalog| #[trigger] call_requires(*build_track_inits, (c,)),
    ensures
        match r {
            Ok(evs) => splits(bytes@) && streamed(
                *decode,
                *build_init,
                *build_track_inits,
                wrapped_segments(bytes@),
                evs@,
                true,
            ),
            Err(e) => {
                ||| unwrap_fails(bytes@, *decode, e)
                ||| splits(bytes@) && all_decoded(
                    *decode,
                    wrapped_segments(bytes@),
                ) && exists|evs: Seq<CborEvent>| #[trigger]
                    stopped(
                        *decode,
                        *build_init,
                        *build_track_inits,
                        wrapped_segments(bytes@),
                        evs,
                        e,
                    )
            },
        },
{
    let mut events: Vec<CborEvent> = Vec::new();
    match gather_events(bytes, decode, build_init, build_track_inits, &mut events) {
        Err(e) => Err(e),
        Ok(()) => {
            assert(events@.skip(0) =~= events@);
            Ok(events)
        },
    }
}

/// Whether the wrapper `s`, read as it arrives, gives the events `evs` and ends as `r`
/// tells. What was due before a failure is sent.
pub open spec fn arrives<
    D: Fn(&[u8]) -> Result<Catalog, Error>,
    I: Fn(&Catalog) -> Result<Vec<u8>, Error>,
    T: Fn(&Catalog) -> Result<BTreeMap<u32, Vec<u8>>, Error>,
>(
    decode: D,
    build_init: I,
    build_track_inits: T,
    s: Seq<u8>,
    evs: Seq<CborEvent>,
    r: Result<(), Error>,
) -> bool {
    let run = scan(s);
    match r {
        Ok(_) => run.fault is None && streamed(
            decode,
            build_init,
            build_track_inits,
            run.out,
            evs,
            true,
        ),
        Err(e) => {
            ||| stopped(decode, build_init, build_track_inits, run.out, evs, e)
            ||| (run.fault matches Some(f) && e@ == ErrorView::InvalidMp4(scan_fault_text(f)))
                && streamed(decode, build_init, build_track_inits, run.out, evs, false)
        },
    }
}

/// As [`segment_events_streaming`], over an input that arrives in pieces. What
/// comes out depends on the joined bytes alone. A caller that is to hold no more than
/// one GOP feeds the pieces to a [`SegmentScanner`](crate::stream::SegmentScanner) and
/// each segment to an [`EventBuilder`].
pub fn segment_events_stream<
    D: Fn(&[u8]) -> Result<Catalog, Error>,
    I: Fn(&Catalog) -> Result<Vec<u8>, Error>,
    T: Fn(&Catalog) -> Result<BTreeMap<u32, Vec<u8>>, Error>,
    E: Fn(CborEvent) -> Result<(), Error>,
>(
    chunks: &Vec<Vec<u8>>,
    decode: &D,
    build_init: &I,
    build_track_inits: &T,
    emit: &E,
) -> (r: Result<(), Error>)
    requires
        forall|d: &[u8]| #[trigger] call_requires(*decode, (d,)),
        forall|c: &Catalog| #[trigger] call_requires(*build_init, (c,)),
        forall|c: &Catalog| #[trigger] call_requires(*build_track_inits, (c,)),
        forall|e: CborEvent| #[trigger] call_requires(*emit, (e,)),
    ensures
        exists|evs: Seq<CborEvent>, s: Result<(), Error>| #[trigger]
            arrives(
                *decode,
                *build_init,
                *build_track_inits,
                join(contents(chunks@)),
                evs,
                s,
            ) && handed(*emit, evs, s, r),
{
    let scanned = scan_wrapper_stream(chunks);
    let mut parts: Vec<&[u8]> = Vec::new();
    let mut i: usize = 0;
    while i < scanned.segments.len()
        invariant
            i <= scanned.segments@.len(),
            parts@.len() == i,
            forall|j: int| 0 <= j < i ==> (#[trigger] parts@[j])@ == scanned.segments@[j]@,
        decreases scanned.segments@.len() - i,
    {
        parts.push(scanned.segments[i].as_slice());
        i += 1;
    }
    proof {
        assert(slices(parts@) =~= contents(scanned.segments@));
    }
    let mut events: Vec<CborEvent> = Vec::new();
    let end = match scanned.error {
        None => send_segments(
            parts.as_slice(),
            decode,
            build_init,
            build_track_inits,
            &mut events,
            true,
        ),
        Some(fault) => {
            match send_segments(
                parts.as_slice(),
                decode,
                build_init,
                build_track_inits,
                &mut events,
                false,
            ) {
                Err(e) => Err(e),
                Ok(()) => Err(fault),
            }
        },
    };
    proof {
        assert(events@.skip(0) =~= events@);
        assert(arrives(
            *decode,
            *build_init,
            *build_track_inits,
            join(contents(chunks@)),
            events@,
            end,
        ));
    }
    hand_over(events, end, emit)
}

/// Whether `g` holds the segment `p` verbatim, under its track, and says of it what its
/// index does: the samples, how many there are and how long they last, and the first decode
/// time.
pub open spec fn holds(g: GopEvent, p: Part) -> bool {
    let key = decimal(p.index.track_id as nat);
    &&& g.tracks.contains_key(key) && g.tracks[key] == p.data
    &&& g.track_byte_sizes.contains_key(key) && g.track_byte_sizes[key] == p.data.len() as u64
    &&& g.samples.contains_key(key) && g.samples[key] == p.index.samples
    &&& g.sample_counts.contains_key(key) && g.sample_counts[key]
        == p.index.samples.durations.len() as u32
    &&& g.durations.contains_key(key) && g.durations[key] == sat64(
        total_ticks(p.index.samples.durations),
    )
    &&& g.first_decode_times.contains_key(key) && Some(g.first_decode_times[key]) == Some(
        p.index.first->Some_0,
    )
}

/// Whether one of the events `ps` is a GOP that holds `p`.
pub open spec fn sent(ps: Seq<PlannedView>, p: Part) -> bool {
    exists|j: int|
        0 <= j < ps.len() && (#[trigger] ps[j] matches PlannedView::Gop(g) && holds(g, p))
}

proof fn lemma_sent_or_open(parts: Seq<Part>, i: int)
    requires
        0 <= i < parts.len(),
    ensures
        sent(events_so_far(parts), parts[i]) || (state_after(parts).open matches Some(g) && holds(
            g.event,
            parts[i],
        ) && (state_after(parts).last matches Some(t) && parts[i].index.track_id <= t)),
    decreases parts.len(),
{
    let n = parts.len() - 1;
    let before = parts.drop_last();
    let st = state_after(before);
    let p = parts.last();
    let old_events = events_so_far(before);
    let new_events = next_events(st, p);
    assert(events_so_far(parts) == old_events + new_events);
    if i < n {
        lemma_sent_or_open(before, i);
        assert(before[i] == parts[i]);
        if sent(old_events, parts[i]) {
            let j = choose|j: int|
                0 <= j < old_events.len() && (#[trigger] old_events[j] matches PlannedView::Gop(g)
                    && holds(g, parts[i]));
            assert((old_events + new_events)[j] == old_events[j]);
        } else if begins_gop(st, p.index.track_id) {
            let k = new_events.len() - 1;
            assert(new_events[k] == PlannedView::Gop(st.open->Some_0.event));
            assert((old_events + new_events)[old_events.len() + k] == new_events[k]);
        } else {
            let a = p.index.track_id;
            let b = parts[i].index.track_id;
            if decimal(a as nat) == decimal(b as nat) {
                law_decimal_injective(a, b);
            }
        }
    }
}

/// Every segment of a stream is in its events, verbatim and under its track, with its
/// samples, its times and its size.
pub proof fn law_events_hold_every_segment(parts: Seq<Part>, i: int)
    requires
        0 <= i < parts.len(),
    ensures
        sent(all_events(parts), parts[i]),
{
    lemma_sent_or_open(parts, i);
    let so_far = events_so_far(parts);
    let last = closing_events(state_after(parts));
    let all = all_events(parts);
    if sent(so_far, parts[i]) {
        let j = choose|j: int|
            0 <= j < so_far.len() && (#[trigger] so_far[j] matches PlannedView::Gop(g) && holds(
                g,
                parts[i],
            ));
        assert(all[j] == so_far[j]);
    } else {
        let k = last.len() - 1;
        assert(last[k] == PlannedView::Gop(state_after(parts).open->Some_0.event));
        assert(all[so_far.len() + k] == last[k]);
    }
}

proof fn lemma_init_first(parts: Seq<Part>)
    ensures
        events_so_far(parts).len() > 0 ==> events_so_far(parts)[0] is Init,
        events_so_far(parts).len() == 0 ==> !state_after(parts).init_sent,
        parts.len() > 0 ==> state_after(parts).open is Some && state_after(parts).last is Some,
    decreases parts.len(),
{
    if parts.len() > 0 {
        let before = parts.drop_last();
        lemma_init_first(before);
        let st = state_after(before);
        let new_events = next_events(st, parts.last());
        if events_so_far(before).len() == 0 {
            assert(events_so_far(parts) =~= new_events);
        } else {
            assert(events_so_far(parts)[0] == events_so_far(before)[0]);
        }
    }
}

/// A stream without segments has no events. Any other begins with an init
/// segment.
pub proof fn law_init_comes_first(parts: Seq<Part>)
    ensures
        all_events(parts).len() == 0 <==> parts.len() == 0,
        parts.len() > 0 ==> all_events(parts)[0] is Init,
{
    lemma_init_first(parts);
    let so_far = events_so_far(parts);
    let last = closing_events(state_after(parts));
    if so_far.len() == 0 {
        assert(all_events(parts) =~= last);
    } else {
        assert(all_events(parts)[0] == so_far[0]);
    }
}

} // verus!
