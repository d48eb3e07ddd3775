//! Segmentation: frames grouped per track and cut at video keyframes.
//!
//! A group of pictures (GOP) begins at a video keyframe and holds every track's
//! fragments up to the next one, per track and in ascending track order.

use std::collections::BTreeMap;

use vstd::prelude::*;
use vstd::slice::slice_to_vec;

use crate::catalog::Catalog;
use crate::keymap::Duplicate;
use crate::tracks::{ascending, keys_of, lemma_sorted, lists, sorted};

verus! {

/// One encoded sample, as a canonical `moof` and `mdat` pair.
#[derive(Debug)]
pub struct Frame {
    pub track_id: u32,
    /// The bytes of the pair.
    pub data: Vec<u8>,
    /// Size of the `moof` at the front of `data`.
    pub moof_size: u32,
    /// Duration in ticks of the track.
    pub duration: u32,
    /// Size of the sample.
    pub size: u32,
    /// Composition time offset.
    pub cts_offset: i32,
    /// Whether decoding can start here.
    pub is_sync: bool,
    /// Decode time in ticks of the track.
    pub decode_time: u64,
}

/// Contents of a [`Frame`].
pub struct FrameView {
    pub track_id: u32,
    pub data: Seq<u8>,
    pub moof_size: u32,
    pub duration: u32,
    pub size: u32,
    pub cts_offset: i32,
    pub is_sync: bool,
    pub decode_time: u64,
}

impl View for Frame {
    type V = FrameView;

    open spec fn view(&self) -> FrameView {
        FrameView {
            track_id: self.track_id,
            data: self.data@,
            moof_size: self.moof_size,
            duration: self.duration,
            size: self.size,
            cts_offset: self.cts_offset,
            is_sync: self.is_sync,
            decode_time: self.decode_time,
        }
    }
}

/// Metadata of the samples of one track, as parallel lists.
#[derive(Debug)]
pub struct TrackSamples {
    /// Durations in ticks of the track.
    pub durations: Vec<u32>,
    /// Sizes of the encoded samples, without the preceding `moof` or the `mdat`
    /// header.
    pub sizes: Vec<u32>,
    /// Composition time offsets.
    pub cts_offsets: Vec<i32>,
    /// Positions of the sync samples, counted from 1.
    pub sync_indices: Vec<u32>,
    /// Where each sample's bytes begin within the track's segment.
    pub offsets_in_track: Vec<u64>,
}

/// Contents of [`TrackSamples`].
#[verifier::ext_equal]
pub struct SamplesView {
    pub durations: Seq<u32>,
    pub sizes: Seq<u32>,
    pub cts_offsets: Seq<i32>,
    pub sync_indices: Seq<u32>,
    pub offsets: Seq<u64>,
}

impl View for TrackSamples {
    type V = SamplesView;

    open spec fn view(&self) -> SamplesView {
        SamplesView {
            durations: self.durations@,
            sizes: self.sizes@,
            cts_offsets: self.cts_offsets@,
            sync_indices: self.sync_indices@,
            offsets: self.offsets_in_track@,
        }
    }
}

/// Metadata of no sample.
pub open spec fn no_samples() -> SamplesView {
    SamplesView {
        durations: seq![],
        sizes: seq![],
        cts_offsets: seq![],
        sync_indices: seq![],
        offsets: seq![],
    }
}

/// `x`, or the largest `u64` where it is larger.
pub open spec fn sat64(x: int) -> u64 {
    if x > u64::MAX {
        u64::MAX
    } else {
        x as u64
    }
}

/// The metadata of one more sample, added to `s`.
pub open spec fn with_sample(
    s: SamplesView,
    duration: u32,
    size: u32,
    cts_offset: i32,
    is_sync: bool,
    offset: u64,
) -> SamplesView {
    SamplesView {
        durations: s.durations.push(duration),
        sizes: s.sizes.push(size),
        cts_offsets: s.cts_offsets.push(cts_offset),
        sync_indices: if is_sync {
            s.sync_indices.push((s.durations.len() + 1) as u32)
        } else {
            s.sync_indices
        },
        offsets: s.offsets.push(offset),
    }
}

impl TrackSamples {
    /// Metadata of no sample.
    pub fn new() -> (r: Self)
        ensures
            r@ == no_samples(),
    {
        let r = TrackSamples {
            durations: Vec::new(),
            sizes: Vec::new(),
            cts_offsets: Vec::new(),
            sync_indices: Vec::new(),
            offsets_in_track: Vec::new(),
        };
        assert(r@ =~= no_samples());
        r
    }

    /// Adds the metadata of the next sample.
    pub fn push(&mut self, duration: u32, size: u32, cts_offset: i32, is_sync: bool, offset: u64)
        ensures
            final(self)@ == with_sample(old(self)@, duration, size, cts_offset, is_sync, offset),
    {
        if is_sync {
            self.sync_indices.push(sample_number(self.durations.len()));
        }
        self.durations.push(duration);
        self.sizes.push(size);
        self.cts_offsets.push(cts_offset);
        self.offsets_in_track.push(offset);
    }
}

/// The number, counted from 1, of the sample after `n` others.
fn sample_number(n: usize) -> (r: u32)
    ensures
        r == (n + 1) as u32,
{
    (n as u128 + 1) as u32
}

impl Duplicate for TrackSamples {
    fn duplicate(&self) -> (r: Self) {
        TrackSamples {
            durations: slice_to_vec(self.durations.as_slice()),
            sizes: slice_to_vec(self.sizes.as_slice()),
            cts_offsets: slice_to_vec(self.cts_offsets.as_slice()),
            sync_indices: slice_to_vec(self.sync_indices.as_slice()),
            offsets_in_track: slice_to_vec(self.offsets_in_track.as_slice()),
        }
    }
}

/// A part of a track for one GOP.
#[derive(Debug)]
pub struct Segment {
    /// GOP number, counted from 1 and shared by the tracks of a GOP.
    pub number: u32,
    /// Track that the segment belongs to.
    pub track_id: u32,
    /// The track's `moof` and `mdat` pairs of this GOP.
    pub data: Vec<u8>,
}

/// All tracks' data of one GOP.
#[derive(Debug)]
pub struct GopSegment {
    /// GOP number, counted from 1.
    pub number: u32,
    /// Per track, its `moof` and `mdat` pairs.
    pub tracks: BTreeMap<u32, Vec<u8>>,
    /// Per track, the total duration in ticks.
    pub durations: BTreeMap<u32, u64>,
    /// Per track, how many samples it has.
    pub sample_counts: BTreeMap<u32, u32>,
    /// Per track, the metadata of its samples.
    pub samples: BTreeMap<u32, TrackSamples>,
    /// Per track, the decode time of its first sample.
    pub first_decode_times: BTreeMap<u32, u64>,
    /// Bytes that the GOP adds to the body of a flat MP4.
    pub body_size: u64,
    /// Playable duration in microseconds: that of the first video track, or of
    /// the longest track where there is no video.
    pub duration_us: u64,
}

/// Contents of a [`GopSegment`].
#[verifier::ext_equal]
pub struct GopView {
    pub number: u32,
    pub tracks: Map<u32, Seq<u8>>,
    pub durations: Map<u32, u64>,
    pub sample_counts: Map<u32, u32>,
    pub samples: Map<u32, SamplesView>,
    pub first_decode_times: Map<u32, u64>,
    pub body_size: u64,
    pub duration_us: u64,
}

impl View for GopSegment {
    type V = GopView;

    open spec fn view(&self) -> GopView {
        GopView {
            number: self.number,
            tracks: self.tracks@.map_values(|v: Vec<u8>| v@),
            durations: self.durations@,
            sample_counts: self.sample_counts@,
            samples: self.samples@.map_values(|s: TrackSamples| s@),
            first_decode_times: self.first_decode_times@,
            body_size: self.body_size,
            duration_us: self.duration_us,
        }
    }
}

/// What has been gathered of one track since the last cut.
#[derive(Debug)]
pub struct TrackBuf {
    pub data: Vec<u8>,
    pub duration: u64,
    pub samples: TrackSamples,
    pub first_decode_time: u64,
}

/// Contents of a [`TrackBuf`].
#[verifier::ext_equal]
pub struct BufView {
    pub data: Seq<u8>,
    pub duration: u64,
    pub samples: SamplesView,
    pub first_decode_time: u64,
}

impl View for TrackBuf {
    type V = BufView;

    open spec fn view(&self) -> BufView {
        BufView {
            data: self.data@,
            duration: self.duration,
            samples: self.samples@,
            first_decode_time: self.first_decode_time,
        }
    }
}

/// `b` with the frame `f` added. The sample lies past what was gathered before,
/// the frame's `moof`, and the 8 bytes of the `mdat` header.
pub open spec fn appended(b: BufView, f: FrameView) -> BufView {
    BufView {
        data: b.data + f.data,
        duration: sat64(b.duration + f.duration),
        samples: with_sample(
            b.samples,
            f.duration,
            f.size,
            f.cts_offset,
            f.is_sync,
            sat64(b.data.len() + f.moof_size + 8),
        ),
        first_decode_time: b.first_decode_time,
    }
}

/// What is gathered, with the frame `f` added to its track.
pub open spec fn recorded(bufs: Map<u32, BufView>, f: FrameView) -> Map<u32, BufView> {
    let b = if bufs.contains_key(f.track_id) {
        bufs[f.track_id]
    } else {
        BufView {
            data: seq![],
            duration: 0,
            samples: no_samples(),
            first_decode_time: f.decode_time,
        }
    };
    bufs.insert(f.track_id, appended(b, f))
}

/// Contents of the buffers in `m`.
pub open spec fn bufs_view(m: Map<u32, TrackBuf>) -> Map<u32, BufView> {
    m.map_values(|b: TrackBuf| b@)
}

/// Adds a frame to the buffer of its track.
pub fn record_frame(frame: &Frame, bufs: &mut BTreeMap<u32, TrackBuf>)
    ensures
        bufs_view(final(bufs)@) == recorded(bufs_view(old(bufs)@), frame@),
{
    let ghost before = bufs_view(bufs@);
    let mut b: TrackBuf = match bufs.remove(&frame.track_id) {
        Some(b) => b,
        None => TrackBuf {
            data: Vec::new(),
            duration: 0,
            samples: TrackSamples::new(),
            first_decode_time: frame.decode_time,
        },
    };
    let ghost b0 = b@;
    let offset: u64 = (b.data.len() as u64).saturating_add(frame.moof_size as u64 + 8);
    b.data.extend_from_slice(frame.data.as_slice());
    b.duration = b.duration.saturating_add(frame.duration as u64);
    b.samples.push(frame.duration, frame.size, frame.cts_offset, frame.is_sync, offset);
    proof {
        assert(b@.data =~= b0.data + frame.data@);
        assert(b0.data.len() == 0 ==> b0.data =~= seq![]);
        assert(b@ =~= appended(b0, frame@));
    }
    bufs.insert(frame.track_id, b);
    assert(bufs_view(bufs@) =~= recorded(before, frame@));
}

/// Whether `id` is in `ids`.
pub fn has_id(ids: &Vec<u32>, id: u32) -> (r: bool)
    ensures
        r == ids@.contains(id),
{
    let mut i: usize = 0;
    while i < ids.len()
        invariant
            i <= ids@.len(),
            forall|j: int| 0 <= j < i ==> ids@[j] != id,
        decreases ids@.len() - i,
    {
        if ids[i] == id {
            assert(ids@[i as int] == id);
            return true;
        }
        i += 1;
    }
    false
}

/// `ticks` of the track `tid`, in microseconds; 0 where its timescale is not
/// known.
pub open spec fn to_us(scales: Map<u32, u32>, tid: u32, ticks: u64) -> u64 {
    if !scales.contains_key(tid) || scales[tid] == 0 {
        0
    } else {
        sat64(ticks * 1_000_000) / (scales[tid] as u64)
    }
}

/// The first of `ids` that is a video track.
pub open spec fn first_video(ids: Seq<u32>, video: Seq<u32>) -> Option<u32>
    decreases ids.len(),
{
    if ids.len() == 0 {
        None
    } else if video.contains(ids[0]) {
        Some(ids[0])
    } else {
        first_video(ids.skip(1), video)
    }
}

/// The longest duration of the tracks `ids`, in microseconds.
pub open spec fn longest_us(
    ids: Seq<u32>,
    durations: Map<u32, u64>,
    scales: Map<u32, u32>,
) -> u64
    decreases ids.len(),
{
    if ids.len() == 0 {
        0
    } else {
        let rest = longest_us(ids.drop_last(), durations, scales);
        let last = to_us(scales, ids.last(), durations[ids.last()]);
        if last > rest {
            last
        } else {
            rest
        }
    }
}

/// A GOP's playable duration in microseconds.
pub open spec fn playable_us(
    durations: Map<u32, u64>,
    scales: Map<u32, u32>,
    video: Seq<u32>,
) -> u64 {
    let ids = sorted(durations.dom());
    match first_video(ids, video) {
        Some(tid) => to_us(scales, tid, durations[tid]),
        None => longest_us(ids, durations, scales),
    }
}

/// Converts `ticks` of a track to microseconds.
pub fn ticks_to_us(scales: &BTreeMap<u32, u32>, tid: u32, ticks: u64) -> (r: u64)
    ensures
        r == to_us(scales@, tid, ticks),
{
    match scales.get(&tid) {
        None => 0,
        Some(ts) => {
            if *ts == 0 {
                return 0;
            }
            let us: u64 = match ticks.checked_mul(1_000_000) {
                Some(x) => x,
                None => u64::MAX,
            };
            us / *ts as u64
        },
    }
}

/// Computes a GOP's playable duration in microseconds.
pub fn compute_duration_us(
    durations: &BTreeMap<u32, u64>,
    scales: &BTreeMap<u32, u32>,
    video: &Vec<u32>,
) -> (r: u64)
    ensures
        r == playable_us(durations@, scales@, video@),
{
    let ids = keys_of(durations);
    let mut i: usize = 0;
    assert(ids@.skip(0) =~= ids@);
    while i < ids.len()
        invariant
            i <= ids@.len(),
            ids@ == sorted(durations@.dom()),
            lists(ids@, durations@.dom()),
            first_video(ids@, video@) == first_video(ids@.skip(i as int), video@),
        decreases ids@.len() - i,
    {
        let tid: u32 = ids[i];
        assert(ids@.contains(tid));
        assert(ids@.skip(i as int)[0] == tid);
        if has_id(video, tid) {
            return match durations.get(&tid) {
                Some(ticks) => ticks_to_us(scales, tid, *ticks),
                None => 0,
            };
        }
        assert(ids@.skip(i as int).skip(1) =~= ids@.skip(i + 1));
        i += 1;
    }
    let mut best: u64 = 0;
    let mut k: usize = 0;
    assert(ids@.take(0) =~= seq![]);
    while k < ids.len()
        invariant
            k <= ids@.len(),
            lists(ids@, durations@.dom()),
            best == longest_us(ids@.take(k as int), durations@, scales@),
        decreases ids@.len() - k,
    {
        let tid: u32 = ids[k];
        assert(ids@.contains(tid));
        let us: u64 = match durations.get(&tid) {
            Some(ticks) => ticks_to_us(scales, tid, *ticks),
            None => 0,
        };
        assert(ids@.take(k + 1).drop_last() =~= ids@.take(k as int));
        if us > best {
            best = us;
        }
        k += 1;
    }
    assert(ids@.take(k as int) =~= ids@);
    best
}

/// The tracks of `bufs` that hold any bytes.
pub open spec fn live(bufs: Map<u32, BufView>) -> Set<u32> {
    Set::new(|k: u32| bufs.contains_key(k) && bufs[k].data.len() > 0)
}

/// How many bytes the tracks `ids` hold together.
pub open spec fn total_bytes(ids: Seq<u32>, tracks: Map<u32, Seq<u8>>) -> int
    decreases ids.len(),
{
    if ids.len() == 0 {
        0
    } else {
        total_bytes(ids.drop_last(), tracks) + tracks[ids.last()].len()
    }
}

/// The GOP made of what is gathered; none where no track holds any bytes.
pub open spec fn gop_of(
    bufs: Map<u32, BufView>,
    scales: Map<u32, u32>,
    video: Seq<u32>,
    number: u32,
) -> Option<GopView> {
    let ids = live(bufs);
    if ids == Set::<u32>::empty() {
        None
    } else {
        let tracks = Map::new(|k: u32| ids.contains(k), |k: u32| bufs[k].data);
        let durations = Map::new(|k: u32| ids.contains(k), |k: u32| bufs[k].duration);
        Some(
            GopView {
                number,
                tracks,
                durations,
                sample_counts: Map::new(
                    |k: u32| ids.contains(k),
                    |k: u32| bufs[k].samples.durations.len() as u32,
                ),
                samples: Map::new(|k: u32| ids.contains(k), |k: u32| bufs[k].samples),
                first_decode_times: Map::new(
                    |k: u32| ids.contains(k),
                    |k: u32| bufs[k].first_decode_time,
                ),
                body_size: sat64(total_bytes(sorted(ids), tracks)),
                duration_us: playable_us(durations, scales, video),
            },
        )
    }
}

/// Makes a GOP of what is gathered.
pub fn flush_track_bufs(
    bufs: BTreeMap<u32, TrackBuf>,
    scales: &BTreeMap<u32, u32>,
    video: &Vec<u32>,
    number: u32,
) -> (r: Option<GopSegment>)
    ensures
        match r {
            Some(g) => gop_of(bufs_view(bufs@), scales@, video@, number) == Some(g@),
            None => gop_of(bufs_view(bufs@), scales@, video@, number) is None,
        },
{
    let mut rest = bufs;
    let ghost b0 = bufs_view(rest@);
    let ghost raw = rest@;
    let ids = keys_of(&rest);
    let mut tracks: BTreeMap<u32, Vec<u8>> = BTreeMap::new();
    let mut durations: BTreeMap<u32, u64> = BTreeMap::new();
    let mut sample_counts: BTreeMap<u32, u32> = BTreeMap::new();
    let mut samples: BTreeMap<u32, TrackSamples> = BTreeMap::new();
    let mut first_decode_times: BTreeMap<u32, u64> = BTreeMap::new();
    let mut body_size: u64 = 0;
    let ghost alive = live(b0);
    let ghost all = Map::new(|k: u32| alive.contains(k), |k: u32| b0[k].data);
    let ghost mut done: Seq<u32> = seq![];
    let mut i: usize = 0;
    assert forall|j: int| 0 <= j < ids@.len() implies raw.contains_key(#[trigger] ids@[j]) by {
        assert(ids@.contains(ids@[j]));
    }
    while i < ids.len()
        invariant
            i <= ids@.len(),
            lists(ids@, raw.dom()),
            forall|j: int| 0 <= j < ids@.len() ==> raw.contains_key(#[trigger] ids@[j]),
            b0 == bufs_view(raw),
            alive == live(b0),
            all == Map::new(|k: u32| alive.contains(k), |k: u32| b0[k].data),
            forall|k: u32| #[trigger] rest@.contains_key(k) ==> rest@[k] == raw[k],
            forall|j: int| i <= j < ids@.len() ==> rest@.contains_key(#[trigger] ids@[j]),
            ascending(done),
            forall|j: int| 0 <= j < done.len() ==> (exists|x: int| 0 <= x < i && ids@[x] == #[trigger] done[j]),
            forall|k: u32| #[trigger] done.contains(k) == tracks@.contains_key(k),
            forall|k: u32| #[trigger]
                tracks@.contains_key(k) == (alive.contains(k) && exists|x: int|
                    0 <= x < i && ids@[x] == k),
            forall|k: u32| #[trigger] tracks@.contains_key(k) ==> tracks@[k]@ == b0[k].data,
            durations@.dom() == tracks@.dom(),
            sample_counts@.dom() == tracks@.dom(),
            samples@.dom() == tracks@.dom(),
            first_decode_times@.dom() == tracks@.dom(),
            forall|k: u32| #[trigger] tracks@.contains_key(k) ==> durations@[k] == b0[k].duration,
            forall|k: u32| #[trigger]
                tracks@.contains_key(k) ==> sample_counts@[k] == b0[k].samples.durations.len()
                    as u32,
            forall|k: u32| #[trigger] tracks@.contains_key(k) ==> samples@[k]@ == b0[k].samples,
            forall|k: u32| #[trigger]
                tracks@.contains_key(k) ==> first_decode_times@[k] == b0[k].first_decode_time,
            body_size == sat64(total_bytes(done, all)),
            total_bytes(done, all) >= 0,
        decreases ids@.len() - i,
    {
        let tid: u32 = ids[i];
        assert(ids@[i as int] == tid);
        assert(rest@.contains_key(tid));
        match rest.remove(&tid) {
            None => {},
            Some(b) => {
                assert(b == raw[tid]);
                assert(b0[tid] == b@);
                if b.data.len() > 0 {
                    assert(alive.contains(tid));
                    proof {
                        assert forall|j: int| 0 <= j < done.len() implies #[trigger] done[j] < tid by {
                            let x = choose|x: int| 0 <= x < i && ids@[x] == done[j];
                            assert(ids@[x] < ids@[i as int]);
                        }
                        let more = done.push(tid);
                        assert(more.drop_last() =~= done);
                        assert forall|k: u32| #[trigger] more.contains(k) == (done.contains(k) || k
                            == tid) by {
                            if done.contains(k) {
                                assert(more[done.index_of(k)] == k);
                            }
                            assert(more[done.len() as int] == tid);
                            if more.contains(k) && k != tid {
                                assert(done[more.index_of(k)] == k);
                            }
                        }
                        done = more;
                    }
                    body_size = body_size.saturating_add(b.data.len() as u64);
                    durations.insert(tid, b.duration);
                    sample_counts.insert(tid, b.samples.durations.len() as u32);
                    samples.insert(tid, b.samples);
                    first_decode_times.insert(tid, b.first_decode_time);
                    tracks.insert(tid, b.data);
                } else {
                    assert(!alive.contains(tid));
                }
            },
        }
        i += 1;
    }
    proof {
        assert forall|k: u32| tracks@.contains_key(k) == alive.contains(k) by {
            if alive.contains(k) {
                assert(ids@.contains(k));
                assert(ids@[ids@.index_of(k)] == k);
            }
        }
        assert(tracks@.dom() =~= alive);
        assert(lists(done, alive));
        lemma_sorted(done, alive);
    }
    if tracks.is_empty() {
        proof {
            assert(alive =~= Set::<u32>::empty());
        }
        None
    } else {
        let duration_us: u64 = compute_duration_us(&durations, scales, video);
        let g = GopSegment {
            number,
            tracks,
            durations,
            sample_counts,
            samples,
            first_decode_times,
            body_size,
            duration_us,
        };
        proof {
            let want = gop_of(b0, scales@, video@, number);
            assert(alive != Set::<u32>::empty()) by {
                if alive =~= Set::<u32>::empty() {
                    assert(tracks@ =~= Map::empty());
                }
            }
            let w = want->Some_0;
            assert(g@.tracks =~= w.tracks);
            assert(g@.durations =~= w.durations);
            assert(g@.sample_counts =~= w.sample_counts);
            assert(g@.samples =~= w.samples);
            assert(g@.first_decode_times =~= w.first_decode_times);
            assert(g@ =~= w);
        }
        Some(g)
    }
}

/// The tracks of a catalog with their timescales, in the order in which the
/// catalog lists them: video before audio, each by name.
pub open spec fn track_scales(c: &Catalog) -> Seq<(u32, u32)> {
    let video = match c.video {
        Some(v) => Seq::new(
            v.renditions.order().len(),
            |i: int| (v.renditions.nth(i).track_id, v.renditions.nth(i).timescale),
        ),
        None => seq![],
    };
    let audio = match c.audio {
        Some(a) => Seq::new(
            a.renditions.order().len(),
            |i: int| (a.renditions.nth(i).track_id, a.renditions.nth(i).timescale),
        ),
        None => seq![],
    };
    video + audio
}

/// Puts `ps` over the map `m`.
pub open spec fn map_over(m: Map<u32, u32>, ps: Seq<(u32, u32)>) -> Map<u32, u32>
    decreases ps.len(),
{
    if ps.len() == 0 {
        m
    } else {
        map_over(m, ps.drop_last()).insert(ps.last().0, ps.last().1)
    }
}

/// Records the timescales of a catalog's tracks.
pub fn note_timescales(m: &mut BTreeMap<u32, u32>, c: &Catalog)
    ensures
        final(m)@ == map_over(old(m)@, track_scales(c)),
{
    let ghost base = m@;
    let ghost ps = track_scales(c);
    let ghost mut count: int = 0;
    assert(ps.take(0) =~= seq![]);
    if let Some(v) = &c.video {
        let n: usize = v.renditions.len();
        let mut i: usize = 0;
        while i < n
            invariant
                i <= n,
                n == v.renditions.order().len(),
                c.video == Some(*v),
                ps == track_scales(c),
                count == i,
                m@ == map_over(base, ps.take(count)),
            decreases n - i,
        {
            proof {
                assert(ps.take(count + 1).drop_last() =~= ps.take(count));
                assert(ps[count] == (
                    v.renditions.nth(i as int).track_id,
                    v.renditions.nth(i as int).timescale,
                ));
                count = count + 1;
            }
            m.insert(v.renditions.value(i).track_id(), v.renditions.value(i).timescale());
            i += 1;
        }
    }
    if let Some(a) = &c.audio {
        let n: usize = a.renditions.len();
        let mut i: usize = 0;
        let ghost start = count;
        while i < n
            invariant
                i <= n,
                n == a.renditions.order().len(),
                c.audio == Some(*a),
                ps == track_scales(c),
                start == (match c.video {
                    Some(v) => v.renditions.order().len() as int,
                    None => 0,
                }),
                count == start + i,
                m@ == map_over(base, ps.take(count)),
            decreases n - i,
        {
            proof {
                assert(ps.take(count + 1).drop_last() =~= ps.take(count));
                assert(ps[count] == (
                    a.renditions.nth(i as int).track_id,
                    a.renditions.nth(i as int).timescale,
                ));
                count = count + 1;
            }
            m.insert(a.renditions.value(i).track_id(), a.renditions.value(i).timescale());
            i += 1;
        }
    }
    assert(ps.take(count) =~= ps);
}

/// The video tracks of a catalog.
pub open spec fn video_ids(c: &Catalog) -> Seq<u32> {
    match c.video {
        Some(v) => Seq::new(v.renditions.order().len(), |i: int| v.renditions.nth(i).track_id),
        None => seq![],
    }
}

/// Whether two catalogs describe the same tracks, listed alike.
pub open spec fn same_catalog(a: Catalog, b: Catalog) -> bool {
    a@ == b@ && track_scales(&a) == track_scales(&b) && video_ids(&a) == video_ids(&b)
}

/// Lists the video tracks of a catalog.
pub fn video_track_ids(c: &Catalog) -> (r: Vec<u32>)
    ensures
        r@ == video_ids(c),
{
    let mut out: Vec<u32> = Vec::new();
    if let Some(v) = &c.video {
        let n: usize = v.renditions.len();
        let mut i: usize = 0;
        while i < n
            invariant
                i <= n,
                n == v.renditions.order().len(),
                c.video == Some(*v),
                out@ == video_ids(c).take(i as int),
            decreases n - i,
        {
            out.push(v.renditions.value(i).track_id());
            i += 1;
            assert(out@ =~= video_ids(c).take(i as int));
        }
    }
    assert(out@ =~= video_ids(c));
    out
}

/// Whether `f` is a keyframe of a video track.
pub open spec fn is_video_key(f: FrameView, video: Seq<u32>) -> bool {
    video.contains(f.track_id) && f.is_sync
}

/// Whether a video keyframe is among `fs`.
pub open spec fn has_video_key(fs: Seq<FrameView>, video: Seq<u32>) -> bool {
    exists|i: int| 0 <= i < fs.len() && is_video_key(#[trigger] fs[i], video)
}

/// The second of media time that the frame `f` begins in; the first where the
/// timescale of its track is not known.
pub open spec fn second_of(f: FrameView, scales: Map<u32, u32>) -> u64 {
    if scales.contains_key(f.track_id) && scales[f.track_id] > 0 {
        f.decode_time / scales[f.track_id] as u64
    } else {
        0
    }
}

/// The second of media time that a frame begins in.
pub fn frame_second(frame: &Frame, scales: &BTreeMap<u32, u32>) -> (r: u64)
    ensures
        r == second_of(frame@, scales@),
{
    match scales.get(&frame.track_id) {
        Some(scale) => if *scale > 0 {
            frame.decode_time / (*scale as u64)
        } else {
            0
        },
        None => 0,
    }
}

/// The second that the group `g` began in; none where it is empty.
pub open spec fn second_begun(g: Seq<FrameView>, scales: Map<u32, u32>) -> Option<u64> {
    if g.len() == 0 {
        None
    } else {
        Some(second_of(g[0], scales))
    }
}

/// Whether the frame `f` begins a new group. Where there are video tracks, a
/// video keyframe does once another, `seen`, has come by. Where there is none, a
/// frame of a later second than the one that the group has `begun` in does.
pub open spec fn begins_group(
    f: FrameView,
    seen: bool,
    begun: Option<u64>,
    scales: Map<u32, u32>,
    video: Seq<u32>,
) -> bool {
    if video.len() > 0 {
        seen && is_video_key(f, video)
    } else {
        begun matches Some(second) && second_of(f, scales) > second
    }
}

/// The frames cut into groups: at every video keyframe but the first, or without
/// video tracks at every second.
pub open spec fn groups(
    fs: Seq<FrameView>,
    scales: Map<u32, u32>,
    video: Seq<u32>,
) -> Seq<Seq<FrameView>>
    decreases fs.len(),
{
    if fs.len() == 0 {
        seq![seq![]]
    } else {
        let before = groups(fs.drop_last(), scales, video);
        let f = fs.last();
        let seen = has_video_key(fs.drop_last(), video);
        if begins_group(f, seen, second_begun(before.last(), scales), scales, video) {
            before.push(seq![f])
        } else {
            before.drop_last().push(before.last().push(f))
        }
    }
}

/// What gathering the frames `fs` leaves.
pub open spec fn gathered(fs: Seq<FrameView>) -> Map<u32, BufView>
    decreases fs.len(),
{
    if fs.len() == 0 {
        Map::empty()
    } else {
        recorded(gathered(fs.drop_last()), fs.last())
    }
}

/// `n`, or the largest `u32` where it is larger.
pub open spec fn sat32(n: int) -> u32 {
    if n > u32::MAX {
        u32::MAX
    } else {
        n as u32
    }
}

/// The GOPs of the groups `gs`, numbered from 1. A group without bytes has a
/// number and no GOP.
pub open spec fn gops(
    gs: Seq<Seq<FrameView>>,
    scales: Map<u32, u32>,
    video: Seq<u32>,
) -> Seq<GopView>
    decreases gs.len(),
{
    if gs.len() == 0 {
        seq![]
    } else {
        let before = gops(gs.drop_last(), scales, video);
        match gop_of(gathered(gs.last()), scales, video, sat32(gs.len() as int)) {
            Some(g) => before.push(g),
            None => before,
        }
    }
}

/// Cuts a stream of frames into GOPs as they arrive.
pub struct GopBuilder {
    bufs: BTreeMap<u32, TrackBuf>,
    scales: BTreeMap<u32, u32>,
    video: Vec<u32>,
    number: u32,
    seen_key: bool,
    begun: Option<u64>,
}

impl GopBuilder {
    /// Timescales of the tracks.
    pub closed spec fn scales(&self) -> Map<u32, u32> {
        self.scales@
    }

    /// The video tracks.
    pub closed spec fn video(&self) -> Seq<u32> {
        self.video@
    }

    /// What is gathered since the last cut.
    pub closed spec fn gathered(&self) -> Map<u32, BufView> {
        bufs_view(self.bufs@)
    }

    /// The number of the last GOP that was cut.
    pub closed spec fn number(&self) -> u32 {
        self.number
    }

    /// Whether a video keyframe has come by.
    pub closed spec fn seen_key(&self) -> bool {
        self.seen_key
    }

    /// The second that the current GOP began in.
    pub closed spec fn begun(&self) -> Option<u64> {
        self.begun
    }

    /// A builder for the tracks of `catalog`.
    pub fn new(catalog: &Catalog) -> (r: Self)
        ensures
            r.scales() == map_over(Map::empty(), track_scales(catalog)),
            r.video() == video_ids(catalog),
            r.gathered() == Map::<u32, BufView>::empty(),
            r.number() == 0,
            !r.seen_key(),
            r.begun() is None,
    {
        let mut scales: BTreeMap<u32, u32> = BTreeMap::new();
        note_timescales(&mut scales, catalog);
        let r = GopBuilder {
            bufs: BTreeMap::new(),
            scales,
            video: video_track_ids(catalog),
            number: 0,
            seen_key: false,
            begun: None,
        };
        assert(r.gathered() =~= Map::<u32, BufView>::empty());
        r
    }

    /// Ends the current GOP.
    fn cut(&mut self) -> (r: Option<GopSegment>)
        ensures
            final(self).scales() == old(self).scales(),
            final(self).video() == old(self).video(),
            final(self).seen_key() == old(self).seen_key(),
            final(self).begun() is None,
            final(self).number() == sat32(old(self).number() + 1),
            final(self).gathered() == Map::<u32, BufView>::empty(),
            ({
                let g = gop_of(
                    old(self).gathered(),
                    old(self).scales(),
                    old(self).video(),
                    sat32(old(self).number() + 1),
                );
                match r {
                    Some(x) => g == Some(x@),
                    None => g is None,
                }
            }),
    {
        self.number = self.number.saturating_add(1);
        self.begun = None;
        let mut bufs: BTreeMap<u32, TrackBuf> = BTreeMap::new();
        std::mem::swap(&mut bufs, &mut self.bufs);
        assert(self.gathered() =~= Map::<u32, BufView>::empty());
        flush_track_bufs(bufs, &self.scales, &self.video, self.number)
    }

    /// Takes the next frame, and hands back the GOP that it ends, if it begins
    /// another.
    pub fn push(&mut self, frame: &Frame) -> (r: Option<GopSegment>)
        ensures
            final(self).scales() == old(self).scales(),
            final(self).video() == old(self).video(),
            ({
                let key = is_video_key(frame@, old(self).video());
                let cuts = begins_group(
                    frame@,
                    old(self).seen_key(),
                    old(self).begun(),
                    old(self).scales(),
                    old(self).video(),
                );
                let number = sat32(old(self).number() + 1);
                &&& final(self).seen_key() == (old(self).seen_key() || key)
                &&& final(self).begun() == if cuts || old(self).begun() is None {
                    Some(second_of(frame@, old(self).scales()))
                } else {
                    old(self).begun()
                }
                &&& final(self).number() == if cuts {
                    number
                } else {
                    old(self).number()
                }
                &&& final(self).gathered() == recorded(
                    if cuts {
                        Map::empty()
                    } else {
                        old(self).gathered()
                    },
                    frame@,
                )
                &&& match r {
                    Some(x) => cuts && gop_of(
                        old(self).gathered(),
                        old(self).scales(),
                        old(self).video(),
                        number,
                    ) == Some(x@),
                    None => !cuts || gop_of(
                        old(self).gathered(),
                        old(self).scales(),
                        old(self).video(),
                        number,
                    ) is None,
                }
            }),
    {
        let key = has_id(&self.video, frame.track_id) && frame.is_sync;
        let second: u64 = frame_second(frame, &self.scales);
        let cuts = if self.video.len() > 0 {
            key && self.seen_key
        } else {
            match self.begun {
                Some(begun) => second > begun,
                None => false,
            }
        };
        let out = if cuts {
            self.cut()
        } else {
            None
        };
        if key {
            self.seen_key = true;
        }
        if self.begun.is_none() {
            self.begun = Some(second);
        }
        record_frame(frame, &mut self.bufs);
        out
    }

    /// Ends the stream, and hands back the last GOP.
    pub fn finish(&mut self) -> (r: Option<GopSegment>)
        ensures
            final(self).gathered() == Map::<u32, BufView>::empty(),
            final(self).scales() == old(self).scales(),
            final(self).video() == old(self).video(),
            final(self).begun() is None,
            final(self).number() == sat32(old(self).number() + 1),
            ({
                let g = gop_of(
                    old(self).gathered(),
                    old(self).scales(),
                    old(self).video(),
                    sat32(old(self).number() + 1),
                );
                match r {
                    Some(x) => g == Some(x@),
                    None => g is None,
                }
            }),
    {
        self.cut()
    }
}

/// Contents of the frames in `v`.
pub open spec fn frames_view(v: Seq<Frame>) -> Seq<FrameView> {
    v.map_values(|f: Frame| f@)
}

/// Contents of the GOPs in `v`.
pub open spec fn gops_view(v: Seq<GopSegment>) -> Seq<GopView> {
    v.map_values(|g: GopSegment| g@)
}

/// Segments the frames of a stream whose tracks `catalog` describes into GOPs,
/// cut at video keyframes; an audio-only stream is cut at every second.
pub fn segment_fmp4(catalog: &Catalog, frames: &Vec<Frame>) -> (r: Vec<GopSegment>)
    ensures
        gops_view(r@) == gops(
            groups(
                frames_view(frames@),
                map_over(Map::empty(), track_scales(catalog)),
                video_ids(catalog),
            ),
            map_over(Map::empty(), track_scales(catalog)),
            video_ids(catalog),
        ),
{
    let mut builder = GopBuilder::new(catalog);
    let mut out: Vec<GopSegment> = Vec::new();
    let ghost fs = frames_view(frames@);
    let ghost video = video_ids(catalog);
    let ghost scales = map_over(Map::empty(), track_scales(catalog));
    let mut i: usize = 0;
    proof {
        assert(fs.take(0) =~= seq![]);
        assert(groups(fs.take(0), scales, video).drop_last() =~= seq![]);
        assert(gops_view(out@) =~= seq![]);
    }
    while i < frames.len()
        invariant
            i <= frames@.len(),
            fs == frames_view(frames@),
            builder.video() == video,
            builder.scales() == scales,
            builder.seen_key() == has_video_key(fs.take(i as int), video),
            ({
                let gs = groups(fs.take(i as int), scales, video);
                &&& gs.len() > 0
                &&& builder.gathered() == gathered(gs.last())
                &&& builder.begun() == second_begun(gs.last(), scales)
                &&& builder.number() == sat32(gs.len() - 1)
                &&& gops_view(out@) == gops(gs.drop_last(), scales, video)
            }),
        decreases frames@.len() - i,
    {
        let ghost gs = groups(fs.take(i as int), scales, video);
        let ghost next = groups(fs.take(i + 1), scales, video);
        let ghost f = frames@[i as int]@;
        let ghost sofar = out@;
        proof {
            assert(fs.take(i + 1).drop_last() =~= fs.take(i as int));
            assert(fs.take(i + 1).last() == f);
            let t = fs.take(i + 1);
            if has_video_key(fs.take(i as int), video) {
                let j = choose|j: int|
                    0 <= j < fs.take(i as int).len() && is_video_key(
                        #[trigger] fs.take(i as int)[j],
                        video,
                    );
                assert(is_video_key(t[j], video));
            }
            if is_video_key(f, video) {
                assert(is_video_key(t[i as int], video));
            }
            if has_video_key(t, video) && !is_video_key(f, video) {
                let j = choose|j: int| 0 <= j < t.len() && is_video_key(#[trigger] t[j], video);
                assert(is_video_key(fs.take(i as int)[j], video));
            }
            let seen = has_video_key(fs.take(i as int), video);
            let cuts = begins_group(f, seen, second_begun(gs.last(), scales), scales, video);
            if cuts {
                assert(next.drop_last() =~= gs);
                assert(next.last() =~= seq![f]);
                assert(seq![f].drop_last() =~= Seq::<FrameView>::empty());
                assert(gathered(Seq::<FrameView>::empty()) =~= Map::<u32, BufView>::empty());
                assert(gathered(next.last()) == recorded(Map::empty(), f));
            } else {
                assert(next.drop_last() =~= gs.drop_last());
                assert(next.last().drop_last() =~= gs.last());
                assert(gathered(next.last()) == recorded(gathered(gs.last()), f));
            }
        }
        match builder.push(&frames[i]) {
            Some(g) => {
                out.push(g);
                assert(gops_view(out@) =~= gops_view(sofar).push(g@));
            },
            None => {},
        }
        i += 1;
    }
    assert(fs.take(i as int) =~= fs);
    let ghost sofar = out@;
    match builder.finish() {
        Some(g) => {
            out.push(g);
            assert(gops_view(out@) =~= gops_view(sofar).push(g@));
        },
        None => {},
    }
    out
}

/// There is a group, and the groups, joined, are the frames.
proof fn lemma_groups_join(fs: Seq<FrameView>, scales: Map<u32, u32>, video: Seq<u32>)
    ensures
        groups(fs, scales, video).len() > 0,
        groups(fs, scales, video).flatten() == fs,
    decreases fs.len(),
{
    if fs.len() == 0 {
        assert(seq![Seq::<FrameView>::empty()].flatten() =~= fs) by {
            seq![Seq::<FrameView>::empty()].lemma_flatten_one_element();
        }
    } else {
        let short = fs.drop_last();
        let before = groups(short, scales, video);
        let f = fs.last();
        lemma_groups_join(short, scales, video);
        assert(before =~= before.drop_last().push(before.last()));
        before.drop_last().lemma_flatten_push(before.last());
        before.lemma_flatten_push(seq![f]);
        before.drop_last().lemma_flatten_push(before.last().push(f));
        assert(before.drop_last().flatten() + before.last().push(f) =~= (
        before.drop_last().flatten() + before.last()) + seq![f]);
        assert(fs =~= short + seq![f]);
    }
}

/// Where there are video tracks, every group after the first begins with a video
/// keyframe and holds no other; the groups, joined, are the frames.
pub proof fn law_groups_cut_at_keyframes(
    fs: Seq<FrameView>,
    scales: Map<u32, u32>,
    video: Seq<u32>,
)
    requires
        video.len() > 0,
    ensures
        groups(fs, scales, video).len() > 0,
        groups(fs, scales, video).flatten() == fs,
        forall|k: int|
            0 < k < groups(fs, scales, video).len() ==> {
                let g = #[trigger] groups(fs, scales, video)[k];
                &&& g.len() > 0
                &&& is_video_key(g[0], video)
                &&& forall|i: int| 0 < i < g.len() ==> !is_video_key(#[trigger] g[i], video)
            },
    decreases fs.len(),
{
    lemma_groups_join(fs, scales, video);
    if fs.len() > 0 {
        let short = fs.drop_last();
        let before = groups(short, scales, video);
        let f = fs.last();
        law_groups_cut_at_keyframes(short, scales, video);
        if !(is_video_key(f, video) && has_video_key(short, video)) {
            let after = groups(fs, scales, video);
            lemma_groups_has_key(short, scales, video);
            assert forall|k: int| 0 < k < after.len() implies {
                let g = #[trigger] after[k];
                &&& g.len() > 0
                &&& is_video_key(g[0], video)
                &&& forall|i: int| 0 < i < g.len() ==> !is_video_key(#[trigger] g[i], video)
            } by {
                assert(before[k].len() > 0);
                if k == after.len() - 1 {
                    let g = after[k];
                    assert(g[0] == before[k][0]);
                    assert forall|i: int| 0 < i < g.len() implies !is_video_key(
                        #[trigger] g[i],
                        video,
                    ) by {
                        if i < g.len() - 1 {
                            assert(g[i] == before[k][i]);
                        }
                    }
                }
            }
        }
    }
}

/// More than one group means that a keyframe came by.
proof fn lemma_groups_has_key(fs: Seq<FrameView>, scales: Map<u32, u32>, video: Seq<u32>)
    requires
        video.len() > 0,
    ensures
        groups(fs, scales, video).len() > 1 ==> has_video_key(fs, video),
    decreases fs.len(),
{
    if fs.len() > 0 {
        lemma_groups_has_key(fs.drop_last(), scales, video);
        lemma_groups_join(fs.drop_last(), scales, video);
        if groups(fs, scales, video).len() > 1 {
            if is_video_key(fs.last(), video) {
                assert(is_video_key(fs[fs.len() - 1], video));
            } else {
                let j = choose|j: int|
                    0 <= j < fs.drop_last().len() && is_video_key(
                        #[trigger] fs.drop_last()[j],
                        video,
                    );
                assert(is_video_key(fs[j], video));
            }
        }
    }
}

/// Whether the frames `fs` come in the order of the seconds they begin in.
pub open spec fn in_time_order(fs: Seq<FrameView>, scales: Map<u32, u32>) -> bool {
    forall|i: int, j: int|
        0 <= i <= j < fs.len() ==> second_of(#[trigger] fs[i], scales) <= second_of(
            #[trigger] fs[j],
            scales,
        )
}

/// Where there is no video track and the frames come in time order, a group is
/// one second: its frames begin in the same second, and every group is of a
/// later one than the group before it. The groups, joined, are the frames.
pub proof fn law_audio_groups_are_seconds(fs: Seq<FrameView>, scales: Map<u32, u32>)
    requires
        in_time_order(fs, scales),
    ensures
        groups(fs, scales, seq![]).flatten() == fs,
        forall|k: int, i: int|
            0 <= k < groups(fs, scales, seq![]).len() && 0 <= i < groups(fs, scales, seq![])[k].len()
                ==> second_of(#[trigger] groups(fs, scales, seq![])[k][i], scales) == second_of(
                groups(fs, scales, seq![])[k][0],
                scales,
            ),
        forall|k: int|
            0 < k < groups(fs, scales, seq![]).len() ==> {
                let g = #[trigger] groups(fs, scales, seq![])[k];
                let prior = groups(fs, scales, seq![])[k - 1];
                &&& g.len() > 0
                &&& prior.len() > 0
                &&& second_of(prior[0], scales) < second_of(g[0], scales)
            },
        fs.len() > 0 ==> groups(fs, scales, seq![]).last().len() > 0 && second_of(
            groups(fs, scales, seq![]).last()[0],
            scales,
        ) == second_of(fs.last(), scales),
    decreases fs.len(),
{
    lemma_groups_join(fs, scales, seq![]);
    let after = groups(fs, scales, seq![]);
    if fs.len() > 0 {
        let short = fs.drop_last();
        let before = groups(short, scales, seq![]);
        let f = fs.last();
        lemma_groups_join(short, scales, seq![]);
        assert(in_time_order(short, scales)) by {
            assert forall|i: int, j: int| 0 <= i <= j < short.len() implies second_of(
                #[trigger] short[i],
                scales,
            ) <= second_of(#[trigger] short[j], scales) by {
                assert(short[i] == fs[i] && short[j] == fs[j]);
            }
        }
        law_audio_groups_are_seconds(short, scales);
        if short.len() > 0 {
            assert(short.last() == fs[fs.len() - 2]);
            assert(f == fs[fs.len() - 1]);
            assert(second_of(short.last(), scales) <= second_of(f, scales));
        } else {
            assert(before =~= seq![Seq::<FrameView>::empty()]);
        }
        let cut = begins_group(
            f,
            has_video_key(short, seq![]),
            second_begun(before.last(), scales),
            scales,
            seq![],
        );
        let n = after.len() - 1;
        if !cut {
            assert(after[n] == before.last().push(f));
            if before.last().len() > 0 {
                assert(after[n][0] == before.last()[0]);
            }
        }
        assert forall|k: int, i: int|
            0 <= k < after.len() && 0 <= i < after[k].len() implies second_of(
            #[trigger] after[k][i],
            scales,
        ) == second_of(after[k][0], scales) by {
            if k < n {
                assert(after[k] == before[k]);
                assert(second_of(before[k][i], scales) == second_of(before[k][0], scales));
            } else if !cut && i < before.last().len() {
                assert(after[k][i] == before[k][i]);
                assert(second_of(before[k][i], scales) == second_of(before[k][0], scales));
            }
        }
        assert forall|k: int| 0 < k < after.len() implies {
            &&& (#[trigger] after[k]).len() > 0
            &&& after[k - 1].len() > 0
            &&& second_of(after[k - 1][0], scales) < second_of(after[k][0], scales)
        } by {
            if k < before.len() {
                assert(before[k].len() > 0);
                assert(after[k - 1] == before[k - 1]);
                assert(after[k][0] == before[k][0]);
            } else {
                assert(after[k - 1] == before.last());
            }
        }
    }
}

/// The bytes of the frames of the track `tid`, in order.
pub open spec fn track_bytes(fs: Seq<FrameView>, tid: u32) -> Seq<u8>
    decreases fs.len(),
{
    if fs.len() == 0 {
        seq![]
    } else if fs.last().track_id == tid {
        track_bytes(fs.drop_last(), tid) + fs.last().data
    } else {
        track_bytes(fs.drop_last(), tid)
    }
}

/// What is gathered of a track are the bytes of its frames, in order: nothing is
/// lost, added or moved.
pub proof fn law_gathered_is_all_frame_data(fs: Seq<FrameView>, tid: u32)
    ensures
        gathered(fs).contains_key(tid) ==> gathered(fs)[tid].data == track_bytes(fs, tid),
        !gathered(fs).contains_key(tid) ==> track_bytes(fs, tid).len() == 0,
    decreases fs.len(),
{
    if fs.len() > 0 {
        law_gathered_is_all_frame_data(fs.drop_last(), tid);
        if fs.last().track_id == tid && !gathered(fs.drop_last()).contains_key(tid) {
            assert(track_bytes(fs.drop_last(), tid) =~= seq![]);
        }
    }
}

/// A GOP holds, per track, exactly the bytes of the track's frames in its group.
pub proof fn law_gop_is_all_frame_data(
    fs: Seq<FrameView>,
    scales: Map<u32, u32>,
    video: Seq<u32>,
    number: u32,
    tid: u32,
)
    ensures
        match gop_of(gathered(fs), scales, video, number) {
            Some(g) => {
                &&& g.tracks.contains_key(tid) == (track_bytes(fs, tid).len() > 0)
                &&& g.tracks.contains_key(tid) ==> g.tracks[tid] == track_bytes(fs, tid)
            },
            None => track_bytes(fs, tid).len() == 0,
        },
{
    law_gathered_is_all_frame_data(fs, tid);
    if track_bytes(fs, tid).len() > 0 {
        assert(live(gathered(fs)).contains(tid));
    }
}

/// The bytes of the track `tid` in the GOPs `gs`, joined.
pub open spec fn joined_track(gs: Seq<GopView>, tid: u32) -> Seq<u8>
    decreases gs.len(),
{
    if gs.len() == 0 {
        seq![]
    } else if gs.last().tracks.contains_key(tid) {
        joined_track(gs.drop_last(), tid) + gs.last().tracks[tid]
    } else {
        joined_track(gs.drop_last(), tid)
    }
}

proof fn lemma_track_bytes_joined(a: Seq<FrameView>, b: Seq<FrameView>, tid: u32)
    ensures
        track_bytes(a + b, tid) == track_bytes(a, tid) + track_bytes(b, tid),
    decreases b.len(),
{
    if b.len() == 0 {
        assert(a + b =~= a);
        assert(track_bytes(a, tid) + track_bytes(b, tid) =~= track_bytes(a, tid));
    } else {
        lemma_track_bytes_joined(a, b.drop_last(), tid);
        assert((a + b).drop_last() =~= a + b.drop_last());
        assert(track_bytes(a + b, tid) =~= track_bytes(a, tid) + track_bytes(b, tid));
    }
}

proof fn lemma_gops_hold_groups(
    gs: Seq<Seq<FrameView>>,
    scales: Map<u32, u32>,
    video: Seq<u32>,
    tid: u32,
)
    ensures
        joined_track(gops(gs, scales, video), tid) == track_bytes(gs.flatten(), tid),
    decreases gs.len(),
{
    if gs.len() == 0 {
        assert(gs.flatten() =~= seq![]);
    } else {
        let before = gs.drop_last();
        let last = gs.last();
        lemma_gops_hold_groups(before, scales, video, tid);
        assert(gs =~= before.push(last));
        before.lemma_flatten_push(last);
        lemma_track_bytes_joined(before.flatten(), last, tid);
        law_gop_is_all_frame_data(last, scales, video, sat32(gs.len() as int), tid);
        let done = gops(before, scales, video);
        let bytes = track_bytes(before.flatten(), tid);
        match gop_of(gathered(last), scales, video, sat32(gs.len() as int)) {
            Some(g) => {
                assert(done.push(g).drop_last() =~= done);
            },
            None => {},
        }
        if track_bytes(last, tid).len() == 0 {
            assert(bytes + track_bytes(last, tid) =~= bytes);
        }
    }
}

/// The GOPs of a stream of frames hold, per track, the bytes of all of the track's
/// frames, in order: nothing is lost, added or moved.
pub proof fn law_gops_hold_all_frames(
    fs: Seq<FrameView>,
    scales: Map<u32, u32>,
    video: Seq<u32>,
    tid: u32,
)
    ensures
        joined_track(gops(groups(fs, scales, video), scales, video), tid) == track_bytes(fs, tid),
{
    lemma_groups_join(fs, scales, video);
    lemma_gops_hold_groups(groups(fs, scales, video), scales, video, tid);
}

/// How many bytes the tracks of a GOP have.
pub open spec fn gop_size(g: GopView) -> u64 {
    sat64(total_bytes(sorted(g.tracks.dom()), g.tracks))
}

/// How many bytes the tracks of a GOP have.
pub fn size_of_gop(gop: &GopSegment) -> (r: u64)
    ensures
        r == gop_size(gop@),
{
    let ids = keys_of(&gop.tracks);
    assert(gop@.tracks.dom() =~= gop.tracks@.dom());
    let mut total: u64 = 0;
    let mut i: usize = 0;
    assert(ids@.take(0) =~= seq![]);
    while i < ids.len()
        invariant
            i <= ids@.len(),
            lists(ids@, gop.tracks@.dom()),
            total == sat64(total_bytes(ids@.take(i as int), gop@.tracks)),
            total_bytes(ids@.take(i as int), gop@.tracks) >= 0,
        decreases ids@.len() - i,
    {
        let tid: u32 = ids[i];
        assert(ids@.contains(tid)) by {
            assert(ids@[i as int] == tid);
        }
        let n: u64 = match gop.tracks.get(&tid) {
            Some(bytes) => bytes.len() as u64,
            None => 0,
        };
        total = total.saturating_add(n);
        i += 1;
        proof {
            let t = ids@.take(i as int);
            assert(t.drop_last() =~= ids@.take(i - 1));
            assert(t.last() == tid);
        }
    }
    assert(ids@.take(i as int) =~= ids@);
    total
}

} // verus!
