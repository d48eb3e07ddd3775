//! Metafiles: what a flat MP4 header needs to know of one canonical segment,
//! without the segment's bytes.
//!
//! A metafile carries the segment's own catalog, so that an archive needs no
//! store besides one metafile per segment. The header of any contiguous range is
//! synthesized from the metafiles alone; the caller then serves the header and
//! the bodies of the segments in order.


use vstd::prelude::*;

use crate::catalog::{merge_segment_catalog, Catalog, CatalogView};
use crate::cbor::{CborTrackSamples, METAFILE_VERSION};
use crate::error::{invalid_mp4, Error, ErrorView};
use crate::events::{sum_ticks, total_ticks};
use crate::keymap::KeyMap;
use crate::moof::{indexed, segment_index, IndexView};
use crate::present::{
    metas_view, no_meta, opens_gop, regrouped, with_segment, Indexed, MetaView, SegmentMetadata,
};
use crate::reader::aggregated;
use crate::segment::{has_id, sat64, SamplesView, TrackSamples};
use crate::stream::{contents, join, scan, scan_fault_text, scan_wrapper_stream};
use crate::text::{decimal, decimal_string, law_decimal_parses, parse_u32, parsed_u32, NumberFault};
use crate::tracks::{ascending, insert_sorted, lemma_sorted, lists, sorted};

verus! {

/// The metafile of one canonical segment.
#[derive(Debug)]
pub struct MetafileSegment {
    /// Always `segment`.
    pub kind: String,
    pub version: u16,
    /// The segment's catalog.
    pub catalog: Catalog,
    /// Per track, the metadata of its samples.
    pub samples: KeyMap<CborTrackSamples>,
    /// Per track, how many bytes the segment has.
    pub track_byte_sizes: KeyMap<u64>,
    /// Per track, the decode time of its first sample.
    pub first_decode_times: KeyMap<u64>,
    /// Per track, the total duration in ticks.
    pub durations: KeyMap<u64>,
    /// Per track, how many samples it has.
    pub sample_counts: KeyMap<u32>,
    /// Bytes that the segment adds to the body.
    pub body_size: u64,
    /// Playable duration in microseconds, or 0 where it is not known.
    pub duration_us: u64,
}

/// Contents of a [`MetafileSegment`].
#[verifier::ext_equal]
pub struct MetafileView {
    pub kind: Seq<char>,
    pub version: u16,
    pub catalog: CatalogView,
    pub samples: Map<Seq<char>, SamplesView>,
    pub track_byte_sizes: Map<Seq<char>, u64>,
    pub first_decode_times: Map<Seq<char>, u64>,
    pub durations: Map<Seq<char>, u64>,
    pub sample_counts: Map<Seq<char>, u32>,
    pub body_size: u64,
    pub duration_us: u64,
}

impl View for MetafileSegment {
    type V = MetafileView;

    open spec fn view(&self) -> MetafileView {
        MetafileView {
            kind: self.kind@,
            version: self.version,
            catalog: self.catalog@,
            samples: self.samples@,
            track_byte_sizes: self.track_byte_sizes@,
            first_decode_times: self.first_decode_times@,
            durations: self.durations@,
            sample_counts: self.sample_counts@,
            body_size: self.body_size,
            duration_us: self.duration_us,
        }
    }
}

/// Where one segment lies in the body of the flat MP4, which begins where the
/// header ends.
#[derive(Clone, Copy, Debug, PartialEq, Eq)]
pub struct SegmentLayout {
    pub body_offset: u64,
    pub body_size: u64,
}

/// A synthesized header, and the body that is to follow it.
#[derive(Debug)]
pub struct FlatHeader {
    pub bytes: Vec<u8>,
    /// How many bytes the header expects to follow.
    pub total_body: u64,
    /// Where the segments lie, in order.
    pub segments: Vec<SegmentLayout>,
}

/// The metafile of a segment of `size` bytes with the index `x` and the catalog
/// `c`. The playable duration is left open: the index has no timescale.
pub open spec fn metafile_of(x: IndexView, c: CatalogView, size: int) -> MetafileView {
    let key = decimal(x.track_id as nat);
    MetafileView {
        kind: "segment"@,
        version: METAFILE_VERSION,
        catalog: c,
        samples: Map::empty().insert(key, x.samples),
        track_byte_sizes: Map::empty().insert(key, size as u64),
        first_decode_times: Map::empty().insert(key, x.first->Some_0),
        durations: Map::empty().insert(key, sat64(total_ticks(x.samples.durations))),
        sample_counts: Map::empty().insert(key, x.samples.durations.len() as u32),
        body_size: size as u64,
        duration_us: 0,
    }
}

/// Whether `m` is the metafile of the segment `data`.
pub open spec fn is_metafile<D: Fn(&[u8]) -> Result<Catalog, Error>>(
    decode: D,
    data: Seq<u8>,
    m: MetafileView,
) -> bool {
    indexed(data) matches Ok(x) && exists|d: &[u8], c: Catalog|
        d@ == data && #[trigger] call_ensures(decode, (d,), Ok::<Catalog, Error>(c)) && m
            == metafile_of(x, c@, data.len() as int)
}

/// Whether `e` is why the segment `data` has no metafile.
pub open spec fn no_metafile<D: Fn(&[u8]) -> Result<Catalog, Error>>(
    decode: D,
    data: Seq<u8>,
    e: Error,
) -> bool {
    match indexed(data) {
        Err(t) => e@ == ErrorView::InvalidMp4(t),
        Ok(_) => exists|d: &[u8]|
            d@ == data && #[trigger] call_ensures(decode, (d,), Err::<Catalog, Error>(e)),
    }
}

/// Makes the metafile of one canonical segment. `decode` reads the catalog out
/// of the segment. Sizes and offsets are those of the bytes as given, so a signed
/// segment has to be signed before.
pub fn segment_metafile<D: Fn(&[u8]) -> Result<Catalog, Error>>(
    segment_bytes: &[u8],
    decode: &D,
) -> (r: Result<MetafileSegment, Error>)
    requires
        call_requires(*decode, (segment_bytes,)),
    ensures
        match r {
            Ok(m) => is_metafile(*decode, segment_bytes@, m@),
            Err(e) => no_metafile(*decode, segment_bytes@, e),
        },
{
    let x = match segment_index(segment_bytes) {
        Ok(x) => x,
        Err(e) => {
            return Err(e);
        },
    };
    let catalog = match (*decode)(segment_bytes) {
        Ok(c) => c,
        Err(e) => {
            return Err(e);
        },
    };
    let ghost c = catalog;
    let tid: u64 = x.track_id as u64;
    let mut samples: KeyMap<CborTrackSamples> = KeyMap::new();
    samples.insert(decimal_string(tid), CborTrackSamples::from(&x.samples));
    let mut track_byte_sizes: KeyMap<u64> = KeyMap::new();
    track_byte_sizes.insert(decimal_string(tid), segment_bytes.len() as u64);
    let mut first_decode_times: KeyMap<u64> = KeyMap::new();
    first_decode_times.insert(decimal_string(tid), x.first_decode_time);
    let mut durations: KeyMap<u64> = KeyMap::new();
    durations.insert(decimal_string(tid), sum_ticks(&x.samples.durations));
    let mut sample_counts: KeyMap<u32> = KeyMap::new();
    sample_counts.insert(decimal_string(tid), x.samples.durations.len() as u32);
    let m = MetafileSegment {
        kind: "segment".to_string(),
        version: METAFILE_VERSION,
        catalog,
        samples,
        track_byte_sizes,
        first_decode_times,
        durations,
        sample_counts,
        body_size: segment_bytes.len() as u64,
        duration_us: 0,
    };
    proof {
        let y = indexed(segment_bytes@)->Ok_0;
        assert(call_ensures(*decode, (segment_bytes,), Ok::<Catalog, Error>(c)));
        assert(m@ =~= metafile_of(y, c@, segment_bytes@.len() as int));
    }
    Ok(m)
}

/// Contents of the metafiles in `v`.
pub open spec fn metafiles_view(v: Seq<MetafileSegment>) -> Seq<MetafileView> {
    v.map_values(|m: MetafileSegment| m@)
}

/// Whether `ms` are the metafiles of the first of `segs`.
pub open spec fn are_metafiles<D: Fn(&[u8]) -> Result<Catalog, Error>>(
    decode: D,
    segs: Seq<Seq<u8>>,
    ms: Seq<MetafileSegment>,
) -> bool {
    ms.len() <= segs.len() && forall|i: int|
        0 <= i < ms.len() ==> is_metafile(decode, segs[i], (#[trigger] ms[i])@)
}

/// Makes the metafiles of all canonical segments of a wrapper that arrives in
/// pieces, and appends them to `out`, in order. Those made before a failure stay
/// there.
pub fn metafiles_stream<D: Fn(&[u8]) -> Result<Catalog, Error>>(
    chunks: &Vec<Vec<u8>>,
    decode: &D,
    out: &mut Vec<MetafileSegment>,
) -> (r: Result<(), Error>)
    requires
        forall|d: &[u8]| #[trigger] call_requires(*decode, (d,)),
    ensures
        ({
            let run = scan(join(contents(chunks@)));
            let ms = final(out)@.skip(old(out)@.len() as int);
            &&& old(out)@.len() <= final(out)@.len()
            &&& final(out)@.take(old(out)@.len() as int) == old(out)@
            &&& are_metafiles(*decode, run.out, ms)
            &&& match r {
                Ok(_) => run.fault is None && ms.len() == run.out.len(),
                Err(e) => {
                    ||| ms.len() < run.out.len() && no_metafile(
                        *decode,
                        run.out[ms.len() as int],
                        e,
                    )
                    ||| ms.len() == run.out.len() && (run.fault matches Some(f) && e@
                        == ErrorView::InvalidMp4(scan_fault_text(f)))
                },
            }
        }),
{
    let scanned = scan_wrapper_stream(chunks);
    let ghost segs = contents(scanned.segments@);
    let ghost base = out@;
    let mut i: usize = 0;
    proof {
        assert(out@.take(base.len() as int) =~= base);
        assert(out@.skip(base.len() as int) =~= seq![]);
    }
    while i < scanned.segments.len()
        invariant
            i <= scanned.segments@.len(),
            segs == contents(scanned.segments@),
            scanned.is(scan(join(contents(chunks@)))),
            base == old(out)@,
            forall|d: &[u8]| #[trigger] call_requires(*decode, (d,)),
            out@.len() == base.len() + i,
            out@.take(base.len() as int) == base,
            are_metafiles(*decode, segs, out@.skip(base.len() as int)),
        decreases scanned.segments@.len() - i,
    {
        match segment_metafile(scanned.segments[i].as_slice(), decode) {
            Err(e) => {
                return Err(e);
            },
            Ok(m) => {
                let ghost before = out@;
                let ghost v = m@;
                out.push(m);
                proof {
                    let ms = out@.skip(base.len() as int);
                    assert(ms =~= before.skip(base.len() as int).push(m));
                    assert(out@.take(base.len() as int) =~= base);
                    assert forall|j: int| 0 <= j < ms.len() implies is_metafile(
                        *decode,
                        segs[j],
                        (#[trigger] ms[j])@,
                    ) by {
                        if j < i {
                            assert(ms[j] == before.skip(base.len() as int)[j]);
                        } else {
                            assert(segs[j] == scanned.segments@[j]@);
                        }
                    }
                }
            },
        }
        i += 1;
    }
    match scanned.error {
        None => Ok(()),
        Some(e) => Err(e),
    }
}

/// The catalogs of the metafiles in `ms`.
pub open spec fn metafile_catalogs(ms: Seq<MetafileView>) -> Seq<CatalogView> {
    ms.map_values(|m: MetafileView| m.catalog)
}

/// The sum of the sizes in a metafile, taken in the order of their keys.
pub open spec fn sum_values(m: KeyMap<u64>, n: int) -> int
    decreases n,
{
    if n <= 0 {
        0
    } else {
        sum_values(m, n - 1) + m.nth(n - 1)
    }
}

/// How many bytes a metafile's segment adds to the body.
pub open spec fn body_of(m: MetafileSegment) -> u64 {
    sat64(sum_values(m.track_byte_sizes, m.track_byte_sizes.order().len() as int))
}

/// Where the bodies of the first `n` segments end.
pub open spec fn body_end(ms: Seq<MetafileSegment>, n: int) -> int
    decreases n,
{
    if n <= 0 {
        0
    } else {
        body_end(ms, n - 1) + body_of(ms[n - 1])
    }
}

/// The tracks of a metafile, ascending: its keys that are numbers.
pub open spec fn metafile_ids(m: MetafileView) -> Set<u32> {
    Set::new(
        |t: u32|
            exists|k: Seq<char>| #[trigger]
                m.samples.contains_key(k) && parsed_u32(k) == Ok::<u32, NumberFault>(t),
    )
}

/// The GOPs that are complete, and the one being gathered.
pub struct Gathering {
    pub done: Seq<MetaView>,
    pub open: Option<MetaView>,
    /// The tracks of the open GOP.
    pub tids: Set<u32>,
}

/// `g` with track `t` of the metafile `m`.
pub open spec fn meta_with(g: MetaView, m: MetafileView, t: u32) -> MetaView {
    let key = decimal(t as nat);
    MetaView {
        samples: if m.samples.contains_key(key) {
            g.samples.insert(t, m.samples[key])
        } else {
            g.samples
        },
        sizes: if m.track_byte_sizes.contains_key(key) {
            g.sizes.insert(t, m.track_byte_sizes[key])
        } else {
            g.sizes
        },
        first: if m.first_decode_times.contains_key(key) {
            g.first.insert(t, m.first_decode_times[key])
        } else {
            g.first
        },
    }
}

/// Adds track `t` of `m`. A track that the open GOP has already begins the next.
pub open spec fn gather_track(st: Gathering, m: MetafileView, t: u32) -> Gathering {
    let cut = st.tids.contains(t);
    let base = if cut || st.open is None {
        no_meta()
    } else {
        st.open->Some_0
    };
    Gathering {
        done: if cut && st.open is Some {
            st.done.push(st.open->Some_0)
        } else {
            st.done
        },
        open: Some(meta_with(base, m, t)),
        tids: if cut {
            set![t]
        } else {
            st.tids.insert(t)
        },
    }
}

/// Adds the tracks `ids` of `m`.
pub open spec fn gather_tracks(st: Gathering, m: MetafileView, ids: Seq<u32>) -> Gathering
    decreases ids.len(),
{
    if ids.len() == 0 {
        st
    } else {
        gather_track(gather_tracks(st, m, ids.drop_last()), m, ids.last())
    }
}

/// Adds all metafiles in `ms`.
pub open spec fn gather(ms: Seq<MetafileView>) -> Gathering
    decreases ms.len(),
{
    if ms.len() == 0 {
        Gathering { done: seq![], open: None, tids: Set::empty() }
    } else {
        gather_tracks(gather(ms.drop_last()), ms.last(), sorted(metafile_ids(ms.last())))
    }
}

/// The GOPs of the metafiles in `ms`.
pub open spec fn gathered_gops(ms: Seq<MetafileView>) -> Seq<MetaView> {
    let st = gather(ms);
    match st.open {
        Some(g) => st.done.push(g),
        None => st.done,
    }
}

fn sum_sizes(m: &KeyMap<u64>) -> (r: u64)
    ensures
        r == sat64(sum_values(*m, m.order().len() as int)),
{
    let n: usize = m.len();
    let mut sum: u64 = 0;
    let mut i: usize = 0;
    while i < n
        invariant
            i <= n,
            n == m.order().len(),
            sum == sat64(sum_values(*m, i as int)),
            sum_values(*m, i as int) >= 0,
        decreases n - i,
    {
        sum = sum.saturating_add(*m.value(i));
        i += 1;
    }
    sum
}

/// Lists the tracks of a metafile, ascending.
fn listed_ids(m: &MetafileSegment) -> (r: Vec<u32>)
    ensures
        lists(r@, metafile_ids(m@)),
        r@ == sorted(metafile_ids(m@)),
{
    let mut out: Vec<u32> = Vec::new();
    let n: usize = m.samples.len();
    let ghost order = m.samples.order();
    let mut i: usize = 0;
    while i < n
        invariant
            i <= n,
            order == m.samples.order(),
            n == order.len(),
            ascending(out@),
            forall|t: u32| #[trigger]
                out@.contains(t) == exists|j: int|
                    0 <= j < i && parsed_u32(#[trigger] order[j]) == Ok::<
                        u32,
                        NumberFault,
                    >(t),
        decreases n - i,
    {
        let ghost before = out@;
        match parse_u32(m.samples.key(i).as_str()) {
            Ok(t) => {
                insert_sorted(&mut out, t);
                assert(parsed_u32(order[i as int]) == Ok::<u32, NumberFault>(t));
            },
            Err(_) => {},
        }
        proof {
            assert forall|t: u32| #[trigger] out@.contains(t) == exists|j: int|
                0 <= j < i + 1 && parsed_u32(#[trigger] order[j]) == Ok::<
                    u32,
                    NumberFault,
                >(t) by {
                if before.contains(t) {
                    let j = choose|j: int|
                        0 <= j < i && parsed_u32(#[trigger] order[j]) == Ok::<
                            u32,
                            NumberFault,
                        >(t);
                    assert(0 <= j < i + 1);
                }
                if out@.contains(t) && !before.contains(t) {
                    assert(parsed_u32(order[i as int]) == Ok::<u32, NumberFault>(t));
                }
            }
        }
        i += 1;
    }
    proof {
        let ids = metafile_ids(m@);
        assert forall|t: u32| #[trigger] out@.contains(t) == ids.contains(t) by {
            if out@.contains(t) {
                let j = choose|j: int|
                    0 <= j < i && parsed_u32(#[trigger] order[j]) == Ok::<
                        u32,
                        NumberFault,
                    >(t);
                assert(m@.samples.contains_key(order[j]));
            }
            if ids.contains(t) {
                let k = choose|k: Seq<char>| #[trigger]
                    m@.samples.contains_key(k) && parsed_u32(k) == Ok::<
                        u32,
                        NumberFault,
                    >(t);
                assert(order.contains(k));
                assert(parsed_u32(order[order.index_of(k)]) == Ok::<
                    u32,
                    NumberFault,
                >(t));
            }
        }
        lemma_sorted(out@, ids);
    }
    out
}

struct Gatherer {
    done: Vec<SegmentMetadata>,
    open: Option<SegmentMetadata>,
    tids: Vec<u32>,
}

impl Gatherer {
    spec fn state(&self) -> Gathering {
        Gathering {
            done: metas_view(self.done@),
            open: match self.open {
                Some(m) => Some(m@),
                None => None,
            },
            tids: Set::new(|t: u32| self.tids@.contains(t)),
        }
    }

    fn track(&mut self, m: &MetafileSegment, t: u32)
        ensures
            final(self).state() == gather_track(old(self).state(), m@, t),
    {
        let ghost st = self.state();
        let cut: bool = has_id(&self.tids, t);
        let mut open: Option<SegmentMetadata> = None;
        std::mem::swap(&mut open, &mut self.open);
        let mut g = if cut {
            match open {
                Some(full) => {
                    self.done.push(full);
                },
                None => {},
            }
            self.tids = Vec::new();
            SegmentMetadata::default()
        } else {
            match open {
                Some(g) => g,
                None => SegmentMetadata::default(),
            }
        };
        let ghost base = g@;
        let key = decimal_string(t as u64);
        match m.samples.get(key.as_str()) {
            Some(s) => {
                g.samples.insert(t, TrackSamples::from(s));
            },
            None => {},
        }
        match m.track_byte_sizes.get(key.as_str()) {
            Some(n) => {
                g.track_byte_sizes.insert(t, *n);
            },
            None => {},
        }
        match m.first_decode_times.get(key.as_str()) {
            Some(n) => {
                g.first_decode_times.insert(t, *n);
            },
            None => {},
        }
        proof {
            let want = meta_with(base, m@, t);
            assert(g@.samples =~= want.samples);
            assert(g@ =~= want);
        }
        self.open = Some(g);
        let ghost ids = self.tids@;
        self.tids.push(t);
        proof {
            let want = gather_track(st, m@, t);
            assert forall|q: u32| self.tids@.contains(q) == want.tids.contains(q) by {
                if ids.contains(q) {
                    assert(self.tids@[ids.index_of(q)] == q);
                }
                assert(self.tids@[ids.len() as int] == t);
                if self.tids@.contains(q) && q != t {
                    assert(ids[self.tids@.index_of(q)] == q);
                }
            }
            assert(self.state().tids =~= want.tids);
            assert(self.state().done =~= want.done);
        }
    }

    fn segment(&mut self, m: &MetafileSegment)
        ensures
            final(self).state() == gather_tracks(
                old(self).state(),
                m@,
                sorted(metafile_ids(m@)),
            ),
    {
        let ghost st = self.state();
        let ids = listed_ids(m);
        let mut i: usize = 0;
        assert(ids@.take(0) =~= seq![]);
        while i < ids.len()
            invariant
                i <= ids@.len(),
                self.state() == gather_tracks(st, m@, ids@.take(i as int)),
            decreases ids@.len() - i,
        {
            self.track(m, ids[i]);
            assert(ids@.take(i + 1).drop_last() =~= ids@.take(i as int));
            i += 1;
        }
        assert(ids@.take(i as int) =~= ids@);
    }
}

/// Synthesizes the header of a flat MP4 from metafiles in interleave order.
///
/// The catalogs are merged into one, the metafiles regrouped into GOPs, and the
/// header is what `build_header` makes of both. The layout says where the body of
/// each segment goes.
pub fn synthesize_flat_header<
    B: Fn(&Catalog, &Vec<SegmentMetadata>) -> Result<Vec<u8>, Error>,
>(segments: &[MetafileSegment], build_header: &B) -> (r: Result<FlatHeader, Error>)
    requires
        forall|c: &Catalog, metas: &Vec<SegmentMetadata>| #[trigger]
            call_requires(*build_header, (c, metas)),
    ensures
        ({
            let ms = metafiles_view(segments@);
            if segments@.len() == 0 {
                r matches Err(e) && e@ == ErrorView::InvalidMp4(
                    "no metafile segments to synthesize"@,
                )
            } else {
                exists|c: Catalog, gops: Vec<SegmentMetadata>|
                    #![trigger c@, metas_view(gops@)]
                    {
                        &&& c@ == aggregated(metafile_catalogs(ms))
                        &&& metas_view(gops@) == gathered_gops(ms)
                        &&& match r {
                            Ok(h) => {
                                &&& call_ensures(
                                    *build_header,
                                    (&c, &gops),
                                    Ok::<Vec<u8>, Error>(h.bytes),
                                )
                                &&& h.total_body == sat64(body_end(segments@, segments@.len() as int))
                                &&& h.segments@.len() == segments@.len()
                                &&& forall|i: int|
                                    0 <= i < segments@.len() ==> #[trigger] h.segments@[i] == (
                                    SegmentLayout {
                                        body_offset: sat64(body_end(segments@, i)),
                                        body_size: body_of(segments@[i]),
                                    })
                            },
                            Err(e) => call_ensures(
                                *build_header,
                                (&c, &gops),
                                Err::<Vec<u8>, Error>(e),
                            ),
                        }
                    }
            }
        }),
{
    if segments.len() == 0 {
        return Err(invalid_mp4("no metafile segments to synthesize"));
    }
    let ghost ms = metafiles_view(segments@);
    let ghost cats = metafile_catalogs(ms);
    let mut catalog = Catalog::default();
    let mut gatherer = Gatherer { done: Vec::new(), open: None, tids: Vec::new() };
    let mut layouts: Vec<SegmentLayout> = Vec::new();
    let mut total: u64 = 0;
    let mut i: usize = 0;
    proof {
        assert(cats.take(0) =~= seq![]);
        assert(ms.take(0) =~= seq![]);
        let st = gatherer.state();
        assert(st.done =~= seq![]);
        assert(st.tids =~= Set::empty());
    }
    while i < segments.len()
        invariant
            i <= segments@.len(),
            ms == metafiles_view(segments@),
            cats == metafile_catalogs(ms),
            catalog@ == aggregated(cats.take(i as int)),
            gatherer.state() == gather(ms.take(i as int)),
            body_end(segments@, i as int) >= 0,
            total == sat64(body_end(segments@, i as int)),
            layouts@.len() == i,
            forall|j: int|
                0 <= j < i ==> #[trigger] layouts@[j] == (SegmentLayout {
                    body_offset: sat64(body_end(segments@, j)),
                    body_size: body_of(segments@[j]),
                }),
        decreases segments@.len() - i,
    {
        let seg = &segments[i];
        proof {
            assert(cats.take(i + 1).drop_last() =~= cats.take(i as int));
            assert(ms.take(i + 1).drop_last() =~= ms.take(i as int));
            assert(ms.take(i + 1).last() == seg@);
        }
        merge_segment_catalog(&mut catalog, &seg.catalog);
        let size: u64 = sum_sizes(&seg.track_byte_sizes);
        layouts.push(SegmentLayout { body_offset: total, body_size: size });
        total = total.saturating_add(size);
        gatherer.segment(seg);
        i += 1;
    }
    proof {
        assert(cats.take(i as int) =~= cats);
        assert(ms.take(i as int) =~= ms);
    }
    let Gatherer { done: mut gops, open, tids: _ } = gatherer;
    let ghost before = gops@;
    match open {
        Some(g) => {
            gops.push(g);
            assert(metas_view(gops@) =~= metas_view(before).push(g@));
        },
        None => {},
    }
    assert(metas_view(gops@) =~= gathered_gops(ms));
    match (*build_header)(&catalog, &gops) {
        Err(e) => Err(e),
        Ok(bytes) => {
            let h = FlatHeader { bytes, total_body: total, segments: layouts };
            assert(call_ensures(*build_header, (&catalog, &gops), Ok::<Vec<u8>, Error>(h.bytes)));
            Ok(h)
        },
    }
}

/// The bodies lie one behind the other, without gaps, and together they are as
/// long as the body.
pub proof fn law_layout_is_contiguous(ms: Seq<MetafileSegment>, i: int)
    requires
        0 <= i < ms.len(),
    ensures
        body_end(ms, 0) == 0,
        body_end(ms, i) + body_of(ms[i]) == body_end(ms, i + 1),
        body_end(ms, i + 1) <= body_end(ms, ms.len() as int),
    decreases ms.len() - i,
{
    if i + 1 < ms.len() {
        law_layout_is_contiguous(ms, i + 1);
        assert(body_end(ms, i + 1) <= body_end(ms, i + 2));
    }
}

/// Whether `ms` are metafiles of segments with the indexes and sizes `items`.
pub open spec fn describes(ms: Seq<MetafileView>, items: Seq<Indexed>) -> bool {
    ms.len() == items.len() && forall|i: int|
        0 <= i < ms.len() ==> #[trigger] ms[i] == metafile_of(
            items[i].index,
            ms[i].catalog,
            items[i].size as int,
        )
}

/// Whether every GOP of `items` but the first opens with a track that the GOP
/// before it has.
pub open spec fn reopens(items: Seq<Indexed>) -> bool {
    forall|n: int|
        1 < n <= items.len() && opens_gop(#[trigger] items.take(n)) ==> regrouped(
            items.take(n - 1),
        ).last().sizes.contains_key(items[n - 1].index.track_id)
}

/// Whether two GOPs have the same tracks with the same sizes and samples.
pub open spec fn same_tracks(a: MetaView, b: MetaView) -> bool {
    a.sizes == b.sizes && a.samples == b.samples
}

proof fn lemma_single_id(x: IndexView, c: CatalogView, size: int)
    ensures
        sorted(metafile_ids(metafile_of(x, c, size))) == seq![x.track_id],
{
    let m = metafile_of(x, c, size);
    let t = x.track_id;
    let key = decimal(t as nat);
    law_decimal_parses(t);
    let ids = metafile_ids(m);
    assert(m.samples.contains_key(key));
    assert forall|q: u32| #[trigger] seq![t].contains(q) == ids.contains(q) by {
        assert(seq![t][0] == t);
        if ids.contains(q) {
            let k = choose|k: Seq<char>| #[trigger]
                m.samples.contains_key(k) && parsed_u32(k) == Ok::<u32, NumberFault>(q);
            assert(k == key);
        }
    }
    assert(lists(seq![t], ids));
    lemma_sorted(seq![t], ids);
}

proof fn lemma_gather_one(st: Gathering, x: IndexView, c: CatalogView, size: int)
    ensures
        gather_tracks(st, metafile_of(x, c, size), seq![x.track_id]) == gather_track(
            st,
            metafile_of(x, c, size),
            x.track_id,
        ),
{
    let m = metafile_of(x, c, size);
    let ids = seq![x.track_id];
    assert(ids.drop_last() =~= seq![]);
    assert(gather_tracks(st, m, ids.drop_last()) == st);
}

proof fn lemma_regroup_alike(ms: Seq<MetafileView>, items: Seq<Indexed>)
    requires
        describes(ms, items),
        reopens(items),
    ensures
        ({
            let a = gathered_gops(ms);
            let b = regrouped(items);
            let st = gather(ms);
            &&& a.len() == b.len()
            &&& forall|j: int| 0 <= j < a.len() ==> same_tracks(#[trigger] a[j], b[j])
            &&& a.len() > 0 ==> a[0].first == b[0].first
            &&& items.len() == 0 ==> st.open is None && st.tids == Set::<u32>::empty()
            &&& items.len() > 0 ==> {
                &&& st.open is Some
                &&& b.len() > 0
                &&& st.tids == b.last().sizes.dom()
                &&& forall|t: u32| #[trigger]
                    st.tids.contains(t) ==> t <= items.last().index.track_id
                &&& a.len() == 1 ==> st.open->Some_0.first.dom() == st.tids
            }
        }),
    decreases items.len(),
{
    let n = items.len() as int;
    if n == 0 {
        assert(gathered_gops(ms) =~= seq![]);
    } else {
        let ms0 = ms.drop_last();
        let it0 = items.drop_last();
        assert(describes(ms0, it0)) by {
            assert forall|i: int| 0 <= i < ms0.len() implies #[trigger] ms0[i] == metafile_of(
                it0[i].index,
                ms0[i].catalog,
                it0[i].size as int,
            ) by {
                assert(ms0[i] == ms[i]);
            }
        }
        assert(reopens(it0)) by {
            assert forall|k: int| 1 < k <= it0.len() && opens_gop(#[trigger] it0.take(k)) implies regrouped(
            it0.take(k - 1)).last().sizes.contains_key(it0[k - 1].index.track_id) by {
                assert(it0.take(k) =~= items.take(k));
                assert(it0.take(k - 1) =~= items.take(k - 1));
            }
        }
        lemma_regroup_alike(ms0, it0);
        let x = items.last();
        let m = ms.last();
        let t = x.index.track_id;
        let st = gather(ms0);
        let before = regrouped(it0);
        assert(m == metafile_of(x.index, m.catalog, x.size as int)) by {
            assert(ms[n - 1] == m);
        }
        lemma_single_id(x.index, m.catalog, x.size as int);
        lemma_gather_one(st, x.index, m.catalog, x.size as int);
        let next = gather(ms);
        assert(next == gather_track(st, m, t));
        let cut = st.tids.contains(t);
        assert(items.take(n) =~= items);
        assert(items.take(n - 1) =~= it0);
        if n > 1 {
            assert(opens_gop(items) == cut) by {
                if opens_gop(items) {
                    assert(opens_gop(items.take(n)));
                    assert(before.last().sizes.contains_key(t));
                }
                if cut {
                    assert(t <= it0.last().index.track_id);
                    assert(items[n - 2] == it0.last());
                }
            }
        }
        let base = if cut || st.open is None {
            no_meta()
        } else {
            st.open->Some_0
        };
        let open = meta_with(base, m, t);
        assert(next.open == Some(open));
        let a0 = gathered_gops(ms0);
        let a = gathered_gops(ms);
        let b = regrouped(items);
        if opens_gop(items) {
            assert(a =~= a0.push(open));
            let fresh = with_segment(no_meta(), x, before.len() == 0);
            assert(b == before.push(fresh));
            assert(open.sizes =~= fresh.sizes);
            assert(open.samples =~= fresh.samples);
            if n == 1 {
                assert(open.first =~= fresh.first);
                assert(open.first.dom() =~= next.tids);
            }
            assert(next.tids =~= fresh.sizes.dom());
        } else {
            assert(n > 1);
            assert(a0 == st.done.push(st.open->Some_0));
            assert(a =~= a0.drop_last().push(open));
            let prev = before.last();
            let grown = with_segment(prev, x, before.len() == 1);
            assert(b == before.drop_last().push(grown));
            assert(same_tracks(a0[a0.len() - 1], before[before.len() - 1]));
            assert(open.sizes =~= grown.sizes);
            assert(open.samples =~= grown.samples);
            if before.len() == 1 {
                assert(!prev.first.contains_key(t));
                assert(open.first =~= grown.first);
                assert(open.first.dom() =~= next.tids);
            }
            assert(next.tids =~= grown.sizes.dom());
            assert forall|q: u32| #[trigger] next.tids.contains(q) implies q <= t by {
                if q != t {
                    assert(st.tids.contains(q));
                }
            }
        }
        assert forall|j: int| 0 <= j < a.len() implies same_tracks(#[trigger] a[j], b[j]) by {
            if j < a.len() - 1 {
                assert(same_tracks(a0[j], before[j]));
            }
        }
    }
}

/// Metafiles give a flat header the same GOPs as the segments themselves do: the
/// same tracks, sizes and samples, and the same beginning of the presentation.
/// Every GOP has to open with a track that the GOP before it has.
pub proof fn law_metafiles_regroup_alike(ms: Seq<MetafileView>, items: Seq<Indexed>)
    requires
        describes(ms, items),
        reopens(items),
    ensures
        gathered_gops(ms).len() == regrouped(items).len(),
        forall|j: int|
            0 <= j < regrouped(items).len() ==> same_tracks(
                #[trigger] gathered_gops(ms)[j],
                regrouped(items)[j],
            ),
        items.len() > 0 ==> gathered_gops(ms)[0].first == regrouped(items)[0].first,
{
    lemma_regroup_alike(ms, items);
}

} // verus!
