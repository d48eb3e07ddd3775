//! Wrapping: a presentation MP4 over verbatim canonical segments.
//!
//! A wrapper puts a header in front of the segments and leaves their bytes
//! untouched. The header builders (`ftyp` and `moov` from a catalog) belong to
//! the caller; what is handed to them, and where the segments go, is decided
//! here.

use std::collections::BTreeMap;

use vstd::prelude::*;

use crate::catalog::Catalog;
use crate::error::{Error, ErrorView};
use crate::keymap::Duplicate;
use crate::moof::{indexed, segment_index, IndexView};
use crate::segment::{GopSegment, GopView, SamplesView, TrackSamples};
use crate::stream::join;
use crate::tracks::{keys_of, lists, sorted};

verus! {

/// What a flat MP4 header needs to know of one GOP.
#[derive(Debug)]
pub struct SegmentMetadata {
    /// Per track, how many bytes it adds to the body.
    pub track_byte_sizes: BTreeMap<u32, u64>,
    /// Per track, the metadata of its samples.
    pub samples: BTreeMap<u32, TrackSamples>,
    /// Per track, the decode time of its first sample. It anchors the
    /// presentation where the GOP is the first.
    pub first_decode_times: BTreeMap<u32, u64>,
}

/// Contents of [`SegmentMetadata`].
#[verifier::ext_equal]
pub struct MetaView {
    pub sizes: Map<u32, u64>,
    pub samples: Map<u32, SamplesView>,
    pub first: Map<u32, u64>,
}

impl View for SegmentMetadata {
    type V = MetaView;

    open spec fn view(&self) -> MetaView {
        MetaView {
            sizes: self.track_byte_sizes@,
            samples: self.samples@.map_values(|s: TrackSamples| s@),
            first: self.first_decode_times@,
        }
    }
}

/// Contents of the metadata in `v`.
pub open spec fn metas_view(v: Seq<SegmentMetadata>) -> Seq<MetaView> {
    v.map_values(|m: SegmentMetadata| m@)
}

/// Metadata of no track.
pub open spec fn no_meta() -> MetaView {
    MetaView { sizes: Map::empty(), samples: Map::empty(), first: Map::empty() }
}

impl Default for SegmentMetadata {
    fn default() -> (r: Self)
        ensures
            r@ == no_meta(),
    {
        let r = SegmentMetadata {
            track_byte_sizes: BTreeMap::new(),
            samples: BTreeMap::new(),
            first_decode_times: BTreeMap::new(),
        };
        assert(r@ =~= no_meta());
        r
    }
}

/// The bytes of the slices in `v`.
pub open spec fn slices(v: Seq<&[u8]>) -> Seq<Seq<u8>> {
    v.map_values(|s: &[u8]| s@)
}

/// Appends the segments, in order.
fn append_segments(out: &mut Vec<u8>, segments: &[&[u8]])
    ensures
        final(out)@ == old(out)@ + join(slices(segments@)),
{
    let ghost start = out@;
    let ghost all = slices(segments@);
    let mut i: usize = 0;
    assert(all.take(0) =~= seq![]);
    assert(start + join(all.take(0)) =~= start);
    while i < segments.len()
        invariant
            i <= segments@.len(),
            all == slices(segments@),
            out@ == start + join(all.take(i as int)),
        decreases segments@.len() - i,
    {
        out.extend_from_slice(segments[i]);
        proof {
            let t = all.take(i + 1);
            assert(t.drop_last() =~= all.take(i as int));
            assert(t.last() == segments@[i as int]@);
            assert(out@ =~= start + join(t));
        }
        i += 1;
    }
    assert(all.take(i as int) =~= all);
}

/// Appends a fragmented MP4 to `out`: the init segment that `build_init` makes
/// of the catalog, then the segments verbatim, in the order given. A failure of
/// `build_init` leaves `out` as it was.
pub fn write_fmp4<B: Fn(&Catalog) -> Result<Vec<u8>, Error>>(
    catalog: &Catalog,
    segments: &[&[u8]],
    build_init: &B,
    out: &mut Vec<u8>,
) -> (r: Result<(), Error>)
    requires
        call_requires(*build_init, (catalog,)),
    ensures
        match r {
            Ok(_) => exists|init: Vec<u8>| #[trigger]
                call_ensures(*build_init, (catalog,), Ok::<Vec<u8>, Error>(init)) && final(out)@
                    == old(out)@ + init@ + join(slices(segments@)),
            Err(e) => call_ensures(*build_init, (catalog,), Err::<Vec<u8>, Error>(e)) && final(out)@
                == old(out)@,
        },
{
    match (*build_init)(catalog) {
        Err(e) => Err(e),
        Ok(init) => {
            out.extend_from_slice(init.as_slice());
            proof {
                assert(out@ =~= old(out)@ + init@);
            }
            append_segments(out, segments);
            Ok(())
        },
    }
}

/// What a flat header needs to know of the GOP `g`.
pub open spec fn gop_meta(g: GopView) -> MetaView {
    MetaView {
        sizes: Map::new(|t: u32| g.tracks.contains_key(t), |t: u32| g.tracks[t].len() as u64),
        samples: g.samples.restrict(g.tracks.dom()),
        first: Map::empty(),
    }
}

/// What a flat header needs to know of `gops`, `first` being the decode times
/// at which the first one begins.
pub open spec fn gop_metas(gops: Seq<GopView>, first: Map<u32, u64>) -> Seq<MetaView> {
    Seq::new(
        gops.len(),
        |i: int|
            if i == 0 {
                MetaView { first, ..gop_meta(gops[i]) }
            } else {
                gop_meta(gops[i])
            },
    )
}

/// The bytes of the tracks `ids` of a GOP, in that order.
pub open spec fn track_run(ids: Seq<u32>, tracks: Map<u32, Seq<u8>>) -> Seq<u8> {
    join(ids.map_values(|t: u32| tracks[t]))
}

/// The bytes of a GOP: its tracks, ascending.
pub open spec fn gop_body(g: GopView) -> Seq<u8> {
    track_run(sorted(g.tracks.dom()), g.tracks)
}

/// The bytes of all GOPs, in order.
pub open spec fn flat_body(gops: Seq<GopView>) -> Seq<u8> {
    join(gops.map_values(|g: GopView| gop_body(g)))
}

fn meta_of(gop: &GopSegment) -> (r: SegmentMetadata)
    ensures
        r@ == gop_meta(gop@),
{
    let mut sizes: BTreeMap<u32, u64> = BTreeMap::new();
    let mut samples: BTreeMap<u32, TrackSamples> = BTreeMap::new();
    let ids = keys_of(&gop.tracks);
    let mut i: usize = 0;
    while i < ids.len()
        invariant
            i <= ids@.len(),
            lists(ids@, gop.tracks@.dom()),
            forall|k: u32| #[trigger]
                sizes@.contains_key(k) == exists|x: int| 0 <= x < i && ids@[x] == k,
            forall|k: u32| #[trigger]
                sizes@.contains_key(k) ==> gop.tracks@.contains_key(k) && sizes@[k]
                    == gop.tracks@[k]@.len() as u64,
            forall|k: u32| #[trigger]
                samples@.contains_key(k) == (sizes@.contains_key(k) && gop.samples@.contains_key(
                    k,
                )),
            forall|k: u32| #[trigger]
                samples@.contains_key(k) ==> samples@[k]@ == gop.samples@[k]@,
        decreases ids@.len() - i,
    {
        let tid: u32 = ids[i];
        assert(ids@.contains(tid)) by {
            assert(ids@[i as int] == tid);
        }
        match gop.tracks.get(&tid) {
            None => {},
            Some(bytes) => {
                sizes.insert(tid, bytes.len() as u64);
            },
        }
        match gop.samples.get(&tid) {
            None => {},
            Some(s) => {
                samples.insert(tid, s.duplicate());
            },
        }
        i += 1;
    }
    let r = SegmentMetadata {
        track_byte_sizes: sizes,
        samples,
        first_decode_times: BTreeMap::new(),
    };
    proof {
        assert forall|k: u32| sizes@.contains_key(k) == gop.tracks@.contains_key(k) by {
            if gop.tracks@.contains_key(k) {
                assert(ids@.contains(k));
                assert(ids@[ids@.index_of(k)] == k);
            }
        }
        let want = gop_meta(gop@);
        assert(r@.sizes =~= want.sizes);
        assert(r@.samples =~= want.samples);
        assert(r@ =~= want);
    }
    r
}

fn copy_times(m: &BTreeMap<u32, u64>) -> (r: BTreeMap<u32, u64>)
    ensures
        r@ == m@,
{
    let mut out: BTreeMap<u32, u64> = BTreeMap::new();
    let ids = keys_of(m);
    let mut i: usize = 0;
    while i < ids.len()
        invariant
            i <= ids@.len(),
            lists(ids@, m@.dom()),
            forall|k: u32| #[trigger]
                out@.contains_key(k) == exists|x: int| 0 <= x < i && ids@[x] == k,
            forall|k: u32| #[trigger] out@.contains_key(k) ==> m@.contains_key(k) && out@[k] == m@[k],
        decreases ids@.len() - i,
    {
        let tid: u32 = ids[i];
        assert(ids@.contains(tid)) by {
            assert(ids@[i as int] == tid);
        }
        match m.get(&tid) {
            None => {},
            Some(t) => {
                out.insert(tid, *t);
            },
        }
        i += 1;
    }
    proof {
        assert forall|k: u32| out@.contains_key(k) == m@.contains_key(k) by {
            if m@.contains_key(k) {
                assert(ids@.contains(k));
                assert(ids@[ids@.index_of(k)] == k);
            }
        }
        assert(out@ =~= m@);
    }
    out
}

/// Appends the tracks of a GOP, ascending.
pub fn append_gop(out: &mut Vec<u8>, gop: &GopSegment)
    ensures
        final(out)@ == old(out)@ + gop_body(gop@),
{
    let ghost start = out@;
    let ids = keys_of(&gop.tracks);
    let ghost runs = ids@.map_values(|t: u32| gop@.tracks[t]);
    assert(gop@.tracks.dom() =~= gop.tracks@.dom());
    assert(gop_body(gop@) == join(runs));
    let mut i: usize = 0;
    assert(runs.take(0) =~= seq![]);
    assert(start + join(runs.take(0)) =~= start);
    while i < ids.len()
        invariant
            i <= ids@.len(),
            lists(ids@, gop.tracks@.dom()),
            runs == ids@.map_values(|t: u32| gop@.tracks[t]),
            out@ == start + join(runs.take(i as int)),
        decreases ids@.len() - i,
    {
        let tid: u32 = ids[i];
        assert(ids@.contains(tid)) by {
            assert(ids@[i as int] == tid);
        }
        assert(gop.tracks@.contains_key(tid));
        match gop.tracks.get(&tid) {
            None => {},
            Some(bytes) => {
                out.extend_from_slice(bytes.as_slice());
                proof {
                    let t = runs.take(i + 1);
                    assert(t.drop_last() =~= runs.take(i as int));
                    assert(t.last() == bytes@);
                    assert(out@ =~= start + join(t));
                }
            },
        }
        i += 1;
    }
    assert(runs.take(i as int) =~= runs);
}

/// Contents of the GOPs in `v`.
pub open spec fn gops_of(v: Seq<GopSegment>) -> Seq<GopView> {
    v.map_values(|g: GopSegment| g@)
}

/// Appends the GOPs, the tracks of each ascending.
pub fn append_gops(out: &mut Vec<u8>, gops: &[GopSegment])
    ensures
        final(out)@ == old(out)@ + flat_body(gops_of(gops@)),
{
    let ghost all = gops_of(gops@);
    let ghost start = out@;
    let ghost bodies = all.map_values(|g: GopView| gop_body(g));
    let mut k: usize = 0;
    assert(bodies.take(0) =~= seq![]);
    assert(start + join(bodies.take(0)) =~= start);
    while k < gops.len()
        invariant
            k <= gops@.len(),
            all == gops_of(gops@),
            bodies == all.map_values(|g: GopView| gop_body(g)),
            out@ == start + join(bodies.take(k as int)),
        decreases gops@.len() - k,
    {
        append_gop(out, &gops[k]);
        proof {
            let t = bodies.take(k + 1);
            assert(t.drop_last() =~= bodies.take(k as int));
            assert(t.last() == gop_body(gops@[k as int]@));
            assert(out@ =~= start + join(t));
        }
        k += 1;
    }
    assert(bodies.take(k as int) =~= bodies);
}

/// Appends a flat MP4 to `out`: the header that `build_header` makes of the
/// catalog and the metadata of the GOPs, then the GOPs verbatim, the tracks of
/// each ascending. A failure of `build_header` leaves `out` as it was.
///
/// `first_decode_times` is where the presentation begins, per track; empty for
/// a stream that begins at time zero.
pub fn write_flat<B: Fn(&Catalog, &Vec<SegmentMetadata>) -> Result<Vec<u8>, Error>>(
    catalog: &Catalog,
    gops: &[GopSegment],
    first_decode_times: &BTreeMap<u32, u64>,
    build_header: &B,
    out: &mut Vec<u8>,
) -> (r: Result<(), Error>)
    requires
        forall|metas: &Vec<SegmentMetadata>| #[trigger]
            call_requires(*build_header, (catalog, metas)),
    ensures
        exists|metas: Vec<SegmentMetadata>|
            {
                &&& metas_view(metas@) == gop_metas(gops_of(gops@), first_decode_times@)
                &&& match r {
                    Ok(_) => exists|header: Vec<u8>| #[trigger]
                        call_ensures(
                            *build_header,
                            (catalog, &metas),
                            Ok::<Vec<u8>, Error>(header),
                        ) && final(out)@ == old(out)@ + header@ + flat_body(gops_of(gops@)),
                    Err(e) => call_ensures(
                        *build_header,
                        (catalog, &metas),
                        Err::<Vec<u8>, Error>(e),
                    ) && final(out)@ == old(out)@,
                }
            },
{
    let mut metas: Vec<SegmentMetadata> = Vec::new();
    let ghost all = gops_of(gops@);
    let mut i: usize = 0;
    while i < gops.len()
        invariant
            i <= gops@.len(),
            all == gops_of(gops@),
            metas@.len() == i,
            forall|j: int|
                0 <= j < i ==> (#[trigger] metas@[j])@ == gop_metas(all, first_decode_times@)[j],
        decreases gops@.len() - i,
    {
        let mut meta = meta_of(&gops[i]);
        if i == 0 {
            meta.first_decode_times = copy_times(first_decode_times);
            assert(meta@ =~= gop_metas(all, first_decode_times@)[0]);
        }
        metas.push(meta);
        i += 1;
    }
    assert(metas_view(metas@) =~= gop_metas(all, first_decode_times@));
    match (*build_header)(catalog, &metas) {
        Err(e) => Err(e),
        Ok(header) => {
            out.extend_from_slice(header.as_slice());
            assert(out@ =~= old(out)@ + header@);
            append_gops(out, gops);
            assert(call_ensures(*build_header, (catalog, &metas), Ok::<Vec<u8>, Error>(header)));
            Ok(())
        },
    }
}

/// What regrouping needs to know of one segment.
pub struct Indexed {
    pub index: IndexView,
    pub size: u64,
}

/// `segs`, each with its index; or the message of the first failure.
pub open spec fn index_all(segs: Seq<Seq<u8>>) -> Result<Seq<Indexed>, Seq<char>>
    decreases segs.len(),
{
    if segs.len() == 0 {
        Ok(seq![])
    } else {
        match index_all(segs.drop_last()) {
            Err(t) => Err(t),
            Ok(before) => match indexed(segs.last()) {
                Err(t) => Err(t),
                Ok(index) => Ok(before.push(Indexed { index, size: segs.last().len() as u64 })),
            },
        }
    }
}

/// Whether the last of `items` begins a GOP: it is the first segment, or its
/// track does not come after the one before.
pub open spec fn opens_gop(items: Seq<Indexed>) -> bool {
    items.len() == 1 || items.last().index.track_id <= items[items.len() - 2].index.track_id
}

/// `m` with one more segment. Only the first GOP keeps where its tracks begin.
pub open spec fn with_segment(m: MetaView, x: Indexed, is_first: bool) -> MetaView {
    let tid = x.index.track_id;
    MetaView {
        sizes: m.sizes.insert(tid, x.size),
        samples: m.samples.insert(tid, x.index.samples),
        first: if is_first && !m.first.contains_key(tid) {
            m.first.insert(tid, x.index.first->Some_0)
        } else {
            m.first
        },
    }
}

/// The segments, regrouped into GOPs.
pub open spec fn regrouped(items: Seq<Indexed>) -> Seq<MetaView>
    decreases items.len(),
{
    if items.len() == 0 {
        seq![]
    } else {
        let before = regrouped(items.drop_last());
        if opens_gop(items) {
            before.push(with_segment(no_meta(), items.last(), before.len() == 0))
        } else {
            before.drop_last().push(
                with_segment(before.last(), items.last(), before.len() == 1),
            )
        }
    }
}

proof fn lemma_regrouped_nonempty(items: Seq<Indexed>)
    ensures
        items.len() > 0 ==> regrouped(items).len() > 0,
    decreases items.len(),
{
    if items.len() > 1 {
        lemma_regrouped_nonempty(items.drop_last());
    }
}

/// A failure in a prefix is the failure of the whole.
proof fn lemma_index_fails(segs: Seq<Seq<u8>>, n: int)
    requires
        0 <= n <= segs.len(),
        index_all(segs.take(n)) is Err,
    ensures
        index_all(segs) == index_all(segs.take(n)),
    decreases segs.len() - n,
{
    if n == segs.len() {
        assert(segs.take(n) =~= segs);
    } else {
        assert(segs.take(n + 1).drop_last() =~= segs.take(n));
        lemma_index_fails(segs, n + 1);
    }
}

/// Reads the metadata of the segments out of their bytes and regroups it into
/// GOPs.
pub fn regroup(segments: &[&[u8]]) -> (r: Result<Vec<SegmentMetadata>, Error>)
    ensures
        match r {
            Ok(metas) => index_all(slices(segments@)) matches Ok(items) && metas_view(metas@)
                == regrouped(items),
            Err(e) => index_all(slices(segments@)) matches Err(t) && e@ == ErrorView::InvalidMp4(t),
        },
{
    let ghost all = slices(segments@);
    let ghost mut items: Seq<Indexed> = seq![];
    let mut metas: Vec<SegmentMetadata> = Vec::new();
    let mut last_tid: Option<u32> = None;
    let mut i: usize = 0;
    proof {
        assert(all.take(0) =~= seq![]);
        assert(metas_view(metas@) =~= regrouped(items));
    }
    while i < segments.len()
        invariant
            i <= segments@.len(),
            all == slices(segments@),
            index_all(all.take(i as int)) == Ok::<Seq<Indexed>, Seq<char>>(items),
            items.len() == i,
            metas_view(metas@) == regrouped(items),
            last_tid is None <==> i == 0,
            i > 0 ==> last_tid == Some(items.last().index.track_id),
        decreases segments@.len() - i,
    {
        let seg = segments[i];
        proof {
            assert(all.take(i + 1).drop_last() =~= all.take(i as int));
            assert(all.take(i + 1).last() == seg@);
        }
        match segment_index(seg) {
            Err(e) => {
                proof {
                    lemma_index_fails(all, i + 1);
                }
                return Err(e);
            },
            Ok(x) => {
                let ghost item = Indexed {
                    index: IndexView {
                        track_id: x.track_id,
                        samples: x.samples@,
                        first: Some(x.first_decode_time),
                    },
                    size: seg@.len() as u64,
                };
                let ghost before = regrouped(items);
                let ghost more = items.push(item);
                proof {
                    assert(more.drop_last() =~= items);
                    lemma_regrouped_nonempty(items);
                }
                let opens: bool = match last_tid {
                    None => true,
                    Some(prev) => x.track_id <= prev,
                };
                let ghost ms = metas@;
                let mut meta = if opens {
                    SegmentMetadata::default()
                } else {
                    match metas.pop() {
                        Some(m) => m,
                        None => SegmentMetadata::default(),
                    }
                };
                let ghost m0 = meta@;
                proof {
                    assert(opens == opens_gop(more));
                    if !opens {
                        assert(before.last() == ms.last()@);
                        assert(m0 == before.last());
                        assert(metas_view(metas@) =~= before.drop_last());
                    }
                }
                meta.track_byte_sizes.insert(x.track_id, seg.len() as u64);
                meta.samples.insert(x.track_id, x.samples);
                if metas.len() == 0 && meta.first_decode_times.get(&x.track_id).is_none() {
                    meta.first_decode_times.insert(x.track_id, x.first_decode_time);
                }
                let ghost rest = metas@;
                proof {
                    let want = with_segment(m0, item, rest.len() == 0);
                    assert(meta@.samples =~= want.samples);
                    assert(meta@ =~= want);
                }
                metas.push(meta);
                proof {
                    assert(metas_view(metas@) =~= metas_view(rest).push(meta@));
                    items = more;
                }
                last_tid = Some(x.track_id);
            },
        }
        i += 1;
    }
    assert(all.take(i as int) =~= all);
    Ok(metas)
}

/// Appends a flat MP4 to `out`, made of raw canonical segments: the header that
/// `build_header` makes of the catalog and of the metadata read out of the
/// segments, then the segments verbatim, in the order given. Any failure leaves
/// `out` as it was.
pub fn write_flat_from_m4s<B: Fn(&Catalog, &Vec<SegmentMetadata>) -> Result<Vec<u8>, Error>>(
    catalog: &Catalog,
    segments: &[&[u8]],
    build_header: &B,
    out: &mut Vec<u8>,
) -> (r: Result<(), Error>)
    requires
        forall|metas: &Vec<SegmentMetadata>| #[trigger]
            call_requires(*build_header, (catalog, metas)),
    ensures
        match index_all(slices(segments@)) {
            Err(t) => r matches Err(e) && e@ == ErrorView::InvalidMp4(t) && final(out)@ == old(
                out,
            )@,
            Ok(items) => exists|metas: Vec<SegmentMetadata>|
                {
                    &&& metas_view(metas@) == regrouped(items)
                    &&& match r {
                        Ok(_) => exists|header: Vec<u8>| #[trigger]
                            call_ensures(
                                *build_header,
                                (catalog, &metas),
                                Ok::<Vec<u8>, Error>(header),
                            ) && final(out)@ == old(out)@ + header@ + join(slices(segments@)),
                        Err(e) => call_ensures(
                            *build_header,
                            (catalog, &metas),
                            Err::<Vec<u8>, Error>(e),
                        ) && final(out)@ == old(out)@,
                    }
                },
        },
{
    match regroup(segments) {
        Err(e) => Err(e),
        Ok(metas) => {
            assert(metas_view(metas@) == regrouped(index_all(slices(segments@))->Ok_0));
            match (*build_header)(catalog, &metas) {
                Err(e) => Err(e),
                Ok(header) => {
                    out.extend_from_slice(header.as_slice());
                    proof {
                        assert(out@ =~= old(out)@ + header@);
                    }
                    append_segments(out, segments);
                    assert(call_ensures(
                        *build_header,
                        (catalog, &metas),
                        Ok::<Vec<u8>, Error>(header),
                    ));
                    Ok(())
                },
            }
        },
    }
}

} // verus!
