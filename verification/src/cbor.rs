//! Events of the streaming protocol, in the shape in which they are written.
//!
//! Map keys are track ids in decimal, since the wire format has text keys only.

use std::collections::BTreeMap;

use vstd::prelude::*;
use vstd::slice::slice_to_vec;

use crate::catalog::{Catalog, CatalogView};
use crate::error::Error;
use crate::keymap::{Duplicate, KeyMap};
use crate::segment::{GopSegment, GopView, SamplesView, TrackSamples};
use crate::text::{decimal, decimal_string, law_decimal_parses, parsed_u32};
use crate::tracks::{keys_of, lists};

verus! {

/// Version of the metafiles and of the streaming protocol.
pub const METAFILE_VERSION: u16 = 1;

/// Bytes that are written as a byte string.
#[derive(Debug)]
pub struct ByteString(pub Vec<u8>);

impl View for ByteString {
    type V = Seq<u8>;

    open spec fn view(&self) -> Seq<u8> {
        self.0@
    }
}

impl Duplicate for ByteString {
    fn duplicate(&self) -> (r: Self) {
        ByteString(slice_to_vec(self.0.as_slice()))
    }
}

/// [`TrackSamples`] as they are written. The sync samples are a list of
/// positions, not a bitmap: most segments have only one or two.
#[derive(Debug)]
pub struct CborTrackSamples {
    pub durations: Vec<u32>,
    pub sizes: Vec<u32>,
    pub cts_offsets: Vec<i32>,
    pub sync_indices: Vec<u32>,
    pub offsets: Vec<u64>,
}

impl View for CborTrackSamples {
    type V = SamplesView;

    open spec fn view(&self) -> SamplesView {
        SamplesView {
            durations: self.durations@,
            sizes: self.sizes@,
            cts_offsets: self.cts_offsets@,
            sync_indices: self.sync_indices@,
            offsets: self.offsets@,
        }
    }
}

impl Duplicate for CborTrackSamples {
    fn duplicate(&self) -> (r: Self) {
        CborTrackSamples {
            durations: slice_to_vec(self.durations.as_slice()),
            sizes: slice_to_vec(self.sizes.as_slice()),
            cts_offsets: slice_to_vec(self.cts_offsets.as_slice()),
            sync_indices: slice_to_vec(self.sync_indices.as_slice()),
            offsets: slice_to_vec(self.offsets.as_slice()),
        }
    }
}

impl From<TrackSamples> for CborTrackSamples {
    fn from(s: TrackSamples) -> (r: Self) {
        CborTrackSamples {
            durations: s.durations,
            sizes: s.sizes,
            cts_offsets: s.cts_offsets,
            sync_indices: s.sync_indices,
            offsets: s.offsets_in_track,
        }
    }
}

impl vstd::std_specs::convert::FromSpecImpl<TrackSamples> for CborTrackSamples {
    open spec fn obeys_from_spec() -> bool {
        true
    }

    open spec fn from_spec(s: TrackSamples) -> Self {
        CborTrackSamples {
            durations: s.durations,
            sizes: s.sizes,
            cts_offsets: s.cts_offsets,
            sync_indices: s.sync_indices,
            offsets: s.offsets_in_track,
        }
    }
}

impl From<CborTrackSamples> for TrackSamples {
    fn from(s: CborTrackSamples) -> (r: Self) {
        TrackSamples {
            durations: s.durations,
            sizes: s.sizes,
            cts_offsets: s.cts_offsets,
            sync_indices: s.sync_indices,
            offsets_in_track: s.offsets,
        }
    }
}

impl vstd::std_specs::convert::FromSpecImpl<CborTrackSamples> for TrackSamples {
    open spec fn obeys_from_spec() -> bool {
        true
    }

    open spec fn from_spec(s: CborTrackSamples) -> Self {
        TrackSamples {
            durations: s.durations,
            sizes: s.sizes,
            cts_offsets: s.cts_offsets,
            sync_indices: s.sync_indices,
            offsets_in_track: s.offsets,
        }
    }
}

impl From<&TrackSamples> for CborTrackSamples {
    fn from(s: &TrackSamples) -> (r: Self)
        ensures
            r@ == s@,
    {
        CborTrackSamples::from(s.duplicate())
    }
}

impl vstd::std_specs::convert::FromSpecImpl<&TrackSamples> for CborTrackSamples {
    open spec fn obeys_from_spec() -> bool {
        false
    }

    open spec fn from_spec(s: &TrackSamples) -> Self {
        <CborTrackSamples as vstd::std_specs::convert::FromSpec<TrackSamples>>::from_spec(*s)
    }
}

impl From<&CborTrackSamples> for TrackSamples {
    fn from(s: &CborTrackSamples) -> (r: Self)
        ensures
            r@ == s@,
    {
        TrackSamples::from(s.duplicate())
    }
}

impl vstd::std_specs::convert::FromSpecImpl<&CborTrackSamples> for TrackSamples {
    open spec fn obeys_from_spec() -> bool {
        false
    }

    open spec fn from_spec(s: &CborTrackSamples) -> Self {
        <TrackSamples as vstd::std_specs::convert::FromSpec<CborTrackSamples>>::from_spec(*s)
    }
}

/// Writing the samples of a track and reading them back gives the same samples,
/// and so does reading and writing.
pub proof fn law_samples_round_trip(s: TrackSamples, c: CborTrackSamples)
    ensures
        <TrackSamples as vstd::std_specs::convert::FromSpec<CborTrackSamples>>::from_spec(
            <CborTrackSamples as vstd::std_specs::convert::FromSpec<TrackSamples>>::from_spec(s),
        ) == s,
        <CborTrackSamples as vstd::std_specs::convert::FromSpec<TrackSamples>>::from_spec(
            <TrackSamples as vstd::std_specs::convert::FromSpec<CborTrackSamples>>::from_spec(c),
        ) == c,
        <CborTrackSamples as vstd::std_specs::convert::FromSpec<TrackSamples>>::from_spec(s)@ == s@,
{
}

/// `m` with its keys in decimal.
pub open spec fn by_text<W>(m: Map<u32, W>) -> Map<Seq<char>, W> {
    Map::new(
        |k: Seq<char>|
            parsed_u32(k) matches Ok(t) && decimal(t as nat) == k && m.contains_key(t),
        |k: Seq<char>| m[parsed_u32(k)->Ok_0],
    )
}

/// A key more before or after writing the keys in decimal is the same.
pub proof fn lemma_by_text_insert<W>(m: Map<u32, W>, t: u32, w: W)
    ensures
        by_text(m.insert(t, w)) == by_text(m).insert(decimal(t as nat), w),
{
    law_decimal_parses(t);
    assert(by_text(m.insert(t, w)) =~= by_text(m).insert(decimal(t as nat), w));
}

/// What is under a decimal key is what was under its number.
pub proof fn law_by_text_lookup<W>(m: Map<u32, W>, t: u32)
    ensures
        by_text(m).contains_key(decimal(t as nat)) == m.contains_key(t),
        m.contains_key(t) ==> by_text(m)[decimal(t as nat)] == m[t],
{
    law_decimal_parses(t);
}

/// Copies `m` with its keys in decimal, each value through `f`.
fn keyed<A, B: View, F: Fn(&A) -> B>(m: &BTreeMap<u32, A>, f: F, g: Ghost<spec_fn(A) -> B::V>) -> (r: KeyMap<
    B,
>)
    requires
        forall|a: &A| #[trigger] call_requires(f, (a,)),
        forall|a: &A, b: B| #[trigger] call_ensures(f, (a,), b) ==> b@ == g@(*a),
    ensures
        r@ == by_text(m@.map_values(g@)),
{
    let ids = keys_of(m);
    let mut out: KeyMap<B> = KeyMap::new();
    let ghost whole = m@.map_values(g@);
    let ghost mut done: Map<u32, B::V> = Map::empty();
    assert(out@ =~= by_text(done));
    let mut i: usize = 0;
    while i < ids.len()
        invariant
            i <= ids@.len(),
            lists(ids@, m@.dom()),
            whole == m@.map_values(g@),
            forall|a: &A| #[trigger] call_requires(f, (a,)),
            forall|a: &A, b: B| #[trigger] call_ensures(f, (a,), b) ==> b@ == g@(*a),
            out@ == by_text(done),
            forall|k: u32| #[trigger]
                done.contains_key(k) == exists|x: int| 0 <= x < i && ids@[x] == k,
            forall|k: u32| #[trigger]
                done.contains_key(k) ==> m@.contains_key(k) && done[k] == whole[k],
        decreases ids@.len() - i,
    {
        let tid: u32 = ids[i];
        assert(ids@.contains(tid)) by {
            assert(ids@[i as int] == tid);
        }
        match m.get(&tid) {
            None => {},
            Some(a) => {
                let b = f(a);
                proof {
                    lemma_by_text_insert(done, tid, b@);
                    done = done.insert(tid, b@);
                }
                out.insert(decimal_string(tid as u64), b);
            },
        }
        i += 1;
    }
    proof {
        assert forall|k: u32| done.contains_key(k) == whole.contains_key(k) by {
            if m@.contains_key(k) {
                assert(ids@.contains(k));
                assert(ids@[ids@.index_of(k)] == k);
            }
        }
        assert(done =~= whole);
    }
    out
}

/// What the segmenter hands out.
#[derive(Debug)]
pub enum SegmenterEvent {
    /// The init segment, and the catalog it was made of.
    InitSegment { catalog: Catalog, data: Vec<u8> },
    /// One GOP.
    Segment(GopSegment),
}

/// An event of the streaming protocol.
#[derive(Debug)]
pub enum CborEvent {
    /// The init segment.
    Init {
        version: u16,
        data: Vec<u8>,
        /// Configuration of the tracks.
        catalog: Option<Catalog>,
        /// Per track, an init segment of its own.
        track_inits: KeyMap<ByteString>,
    },
    /// One GOP with all its tracks.
    Segment {
        tracks: KeyMap<ByteString>,
        /// Per track, the total duration in ticks.
        durations: KeyMap<u64>,
        /// Per track, how many samples it has.
        sample_counts: KeyMap<u32>,
        /// Per track, the metadata of its samples.
        samples: KeyMap<CborTrackSamples>,
        /// Per track, how many bytes it adds to the body of a flat MP4.
        track_byte_sizes: KeyMap<u64>,
        /// Per track, the decode time of its first sample.
        first_decode_times: KeyMap<u64>,
        /// Bytes that the GOP adds to the body of a flat MP4.
        body_size: u64,
        /// Playable duration in microseconds.
        duration_us: u64,
    },
}

/// Contents of [`CborEvent::Segment`].
#[verifier::ext_equal]
pub struct GopEvent {
    pub tracks: Map<Seq<char>, Seq<u8>>,
    pub durations: Map<Seq<char>, u64>,
    pub sample_counts: Map<Seq<char>, u32>,
    pub samples: Map<Seq<char>, SamplesView>,
    pub track_byte_sizes: Map<Seq<char>, u64>,
    pub first_decode_times: Map<Seq<char>, u64>,
    pub body_size: u64,
    pub duration_us: u64,
}

/// Contents of a [`CborEvent`].
pub enum CborEventView {
    Init {
        version: u16,
        data: Seq<u8>,
        catalog: Option<CatalogView>,
        track_inits: Map<Seq<char>, Seq<u8>>,
    },
    Segment(GopEvent),
}

impl View for CborEvent {
    type V = CborEventView;

    open spec fn view(&self) -> CborEventView {
        match self {
            CborEvent::Init { version, data, catalog, track_inits } => CborEventView::Init {
                version: *version,
                data: data@,
                catalog: match *catalog {
                    Some(c) => Some(c@),
                    None => None,
                },
                track_inits: track_inits@,
            },
            CborEvent::Segment {
                tracks,
                durations,
                sample_counts,
                samples,
                track_byte_sizes,
                first_decode_times,
                body_size,
                duration_us,
            } => CborEventView::Segment(
                GopEvent {
                    tracks: tracks@,
                    durations: durations@,
                    sample_counts: sample_counts@,
                    samples: samples@,
                    track_byte_sizes: track_byte_sizes@,
                    first_decode_times: first_decode_times@,
                    body_size: *body_size,
                    duration_us: *duration_us,
                },
            ),
        }
    }
}

/// The event of the GOP `g`.
pub open spec fn gop_event(g: GopView) -> GopEvent {
    GopEvent {
        tracks: by_text(g.tracks),
        durations: by_text(g.durations),
        sample_counts: by_text(g.sample_counts),
        samples: by_text(g.samples),
        track_byte_sizes: by_text(g.tracks.map_values(|b: Seq<u8>| b.len() as u64)),
        first_decode_times: by_text(g.first_decode_times),
        body_size: g.body_size,
        duration_us: g.duration_us,
    }
}

/// The event of an init segment, `inits` being what the builder of per-track
/// init segments returned. A failure of the builder leaves them out.
pub open spec fn init_event(
    catalog: CatalogView,
    data: Seq<u8>,
    inits: Result<BTreeMap<u32, Vec<u8>>, Error>,
) -> CborEventView {
    CborEventView::Init {
        version: METAFILE_VERSION,
        data,
        catalog: Some(catalog),
        track_inits: match inits {
            Ok(m) => by_text(m@.map_values(|v: Vec<u8>| v@)),
            Err(_) => Map::empty(),
        },
    }
}

fn byte_string(v: &Vec<u8>) -> (b: ByteString)
    ensures
        b@ == v@,
{
    ByteString(slice_to_vec(v.as_slice()))
}

fn byte_count(v: &Vec<u8>) -> (n: u64)
    ensures
        n == v@.len() as u64,
{
    v.len() as u64
}

fn written_samples(s: &TrackSamples) -> (c: CborTrackSamples)
    ensures
        c@ == s@,
{
    CborTrackSamples::from(s)
}

fn number64(v: &u64) -> (n: u64)
    ensures
        n == *v,
{
    *v
}

fn number32(v: &u32) -> (n: u32)
    ensures
        n == *v,
{
    *v
}

/// Copies the tracks with their ids in decimal.
pub fn keyed_bytes(m: &BTreeMap<u32, Vec<u8>>) -> (r: KeyMap<ByteString>)
    ensures
        r@ == by_text(m@.map_values(|v: Vec<u8>| v@)),
{
    keyed(m, byte_string, Ghost(|v: Vec<u8>| v@))
}

fn keyed_sizes(m: &BTreeMap<u32, Vec<u8>>) -> (r: KeyMap<u64>)
    ensures
        r@ == by_text(m@.map_values(|v: Vec<u8>| v@.len() as u64)),
{
    keyed(m, byte_count, Ghost(|v: Vec<u8>| v@.len() as u64))
}

fn keyed_samples(m: &BTreeMap<u32, TrackSamples>) -> (r: KeyMap<CborTrackSamples>)
    ensures
        r@ == by_text(m@.map_values(|s: TrackSamples| s@)),
{
    keyed(m, written_samples, Ghost(|s: TrackSamples| s@))
}

fn keyed_u64(m: &BTreeMap<u32, u64>) -> (r: KeyMap<u64>)
    ensures
        r@ == by_text(m@),
{
    assert(m@.map_values(|v: u64| v) =~= m@);
    keyed(m, number64, Ghost(|v: u64| v))
}

fn keyed_u32(m: &BTreeMap<u32, u32>) -> (r: KeyMap<u32>)
    ensures
        r@ == by_text(m@),
{
    assert(m@.map_values(|v: u32| v) =~= m@);
    keyed(m, number32, Ghost(|v: u32| v))
}

/// Whether `r` is the event of the protocol for the event `event` of the segmenter.
pub open spec fn tells<B: Fn(&Catalog) -> Result<BTreeMap<u32, Vec<u8>>, Error>>(
    event: SegmenterEvent,
    build_track_inits: B,
    r: CborEventView,
) -> bool {
    match event {
        SegmenterEvent::InitSegment { catalog, data } => exists|
            inits: Result<BTreeMap<u32, Vec<u8>>, Error>,
        | #[trigger]
            call_ensures(build_track_inits, (&catalog,), inits) && r == init_event(
                catalog@,
                data@,
                inits,
            ),
        SegmenterEvent::Segment(gop) => r == CborEventView::Segment(gop_event(gop@)),
    }
}

impl CborEvent {
    /// The event of the protocol for an event of the segmenter.
    /// `build_track_inits` makes the per-track init segments of a catalog.
    pub fn from_event<B: Fn(&Catalog) -> Result<BTreeMap<u32, Vec<u8>>, Error>>(
        event: &SegmenterEvent,
        build_track_inits: B,
    ) -> (r: Self)
        requires
            event matches SegmenterEvent::InitSegment { catalog, .. } ==> call_requires(
                build_track_inits,
                (catalog,),
            ),
        ensures
            tells(*event, build_track_inits, r@),
    {
        match event {
            SegmenterEvent::InitSegment { catalog, data } => {
                let inits = build_track_inits(catalog);
                let track_inits = match &inits {
                    Ok(m) => keyed_bytes(m),
                    Err(_) => KeyMap::new(),
                };
                let r = CborEvent::Init {
                    version: METAFILE_VERSION,
                    data: slice_to_vec(data.as_slice()),
                    catalog: Some(catalog.duplicate()),
                    track_inits,
                };
                assert(r@ == init_event(catalog@, data@, inits));
                r
            },
            SegmenterEvent::Segment(gop) => {
                let r = CborEvent::Segment {
                    tracks: keyed_bytes(&gop.tracks),
                    durations: keyed_u64(&gop.durations),
                    sample_counts: keyed_u32(&gop.sample_counts),
                    samples: keyed_samples(&gop.samples),
                    track_byte_sizes: keyed_sizes(&gop.tracks),
                    first_decode_times: keyed_u64(&gop.first_decode_times),
                    body_size: gop.body_size,
                    duration_us: gop.duration_us,
                };
                proof {
                    assert(gop@.tracks.map_values(|b: Seq<u8>| b.len() as u64)
                        =~= gop.tracks@.map_values(|v: Vec<u8>| v@.len() as u64));
                }
                r
            },
        }
    }

    /// As [`CborEvent::from_event`], for an event that is not needed further.
    pub fn from_event_owned<B: Fn(&Catalog) -> Result<BTreeMap<u32, Vec<u8>>, Error>>(
        event: SegmenterEvent,
        build_track_inits: B,
    ) -> (r: Self)
        requires
            event matches SegmenterEvent::InitSegment { catalog, .. } ==> call_requires(
                build_track_inits,
                (&catalog,),
            ),
        ensures
            tells(event, build_track_inits, r@),
    {
        CborEvent::from_event(&event, build_track_inits)
    }
}

/// An event of the protocol of signed streams.
#[derive(Debug)]
pub enum SignedEvent {
    /// The init segment and the catalog.
    Init { data: Vec<u8>, catalog: Option<Catalog>, track_inits: KeyMap<ByteString> },
    /// One GOP, every track of it a signed canonical segment. The offsets of the
    /// samples count from the start of the signed bytes.
    SignedSegment {
        number: u32,
        tracks: KeyMap<ByteString>,
        durations: KeyMap<u64>,
        sample_counts: KeyMap<u32>,
        samples: KeyMap<CborTrackSamples>,
        first_decode_times: KeyMap<u64>,
        body_size: u64,
        duration_us: u64,
    },
}

/// Contents of a [`SignedEvent`].
pub enum SignedEventView {
    Init {
        data: Seq<u8>,
        catalog: Option<CatalogView>,
        track_inits: Map<Seq<char>, Seq<u8>>,
    },
    SignedSegment {
        number: u32,
        tracks: Map<Seq<char>, Seq<u8>>,
        durations: Map<Seq<char>, u64>,
        sample_counts: Map<Seq<char>, u32>,
        samples: Map<Seq<char>, SamplesView>,
        first_decode_times: Map<Seq<char>, u64>,
        body_size: u64,
        duration_us: u64,
    },
}

impl View for SignedEvent {
    type V = SignedEventView;

    open spec fn view(&self) -> SignedEventView {
        match self {
            SignedEvent::Init { data, catalog, track_inits } => SignedEventView::Init {
                data: data@,
                catalog: match *catalog {
                    Some(c) => Some(c@),
                    None => None,
                },
                track_inits: track_inits@,
            },
            SignedEvent::SignedSegment {
                number,
                tracks,
                durations,
                sample_counts,
                samples,
                first_decode_times,
                body_size,
                duration_us,
            } => SignedEventView::SignedSegment {
                number: *number,
                tracks: tracks@,
                durations: durations@,
                sample_counts: sample_counts@,
                samples: samples@,
                first_decode_times: first_decode_times@,
                body_size: *body_size,
                duration_us: *duration_us,
            },
        }
    }
}

impl SignedEvent {
    /// The event of a GOP whose tracks are signed already, with the offsets of
    /// its samples past the signing prefixes. Decode times are left to the
    /// consumer.
    pub fn signed_from_gop(gop: GopSegment) -> (r: Self)
        ensures
            ({
                let g = gop@;
                r@ == (SignedEventView::SignedSegment {
                    number: g.number,
                    tracks: by_text(g.tracks),
                    durations: by_text(g.durations),
                    sample_counts: by_text(g.sample_counts),
                    samples: by_text(g.samples),
                    first_decode_times: Map::empty(),
                    body_size: g.body_size,
                    duration_us: g.duration_us,
                })
            }),
    {
        SignedEvent::SignedSegment {
            number: gop.number,
            tracks: keyed_bytes(&gop.tracks),
            durations: keyed_u64(&gop.durations),
            sample_counts: keyed_u32(&gop.sample_counts),
            samples: keyed_samples(&gop.samples),
            first_decode_times: KeyMap::new(),
            body_size: gop.body_size,
            duration_us: gop.duration_us,
        }
    }
}

} // verus!
