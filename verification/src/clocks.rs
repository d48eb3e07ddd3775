//! What the times, sizes and timescales of a GOP say.

use vstd::arithmetic::div_mod::{lemma_fundamental_div_mod, lemma_mod_bound};
use vstd::prelude::*;

use crate::catalog::Catalog;
use crate::concat::{moved, prefixed};
use crate::error::Error;
use crate::segment::{
    first_video, gop_of, live, longest_us, map_over, playable_us, sat64, second_of, to_us, total_bytes,
    track_scales, BufView, FrameView, GopView,
};
use crate::sign::{all_signed, bytes_of_tracks, resigned};
use crate::tables::{has_at, payload, is_framed, tabled};
use crate::tracks::{ascending, lemma_sorted, lists, sorted};

verus! {

/// A time in microseconds is the one in ticks, rounded down: the whole microseconds that
/// fit. A track whose timescale is not known lasts 0, and so does one with the timescale 0.
pub proof fn law_microseconds_are_whole(scales: Map<u32, u32>, tid: u32, ticks: u64)
    requires
        ticks * 1_000_000 <= u64::MAX,
    ensures
        scales.contains_key(tid) && scales[tid] > 0 ==> {
            let us = to_us(scales, tid, ticks);
            &&& us * scales[tid] <= ticks * 1_000_000
            &&& ticks * 1_000_000 < (us + 1) * scales[tid]
        },
        !scales.contains_key(tid) || scales[tid] == 0 ==> to_us(scales, tid, ticks) == 0,
{
    if scales.contains_key(tid) && scales[tid] > 0 {
        let n = ticks * 1_000_000;
        let d = scales[tid] as int;
        let q = to_us(scales, tid, ticks) as int;
        assert(sat64(n) == n);
        assert(q == n / d);
        lemma_fundamental_div_mod(n, d);
        lemma_mod_bound(n, d);
        assert(q * d == d * q) by (nonlinear_arith);
        assert((q + 1) * d == q * d + d) by (nonlinear_arith);
    }
}

/// The second that a frame begins in is the last whole one that has passed by then.
pub proof fn law_seconds_are_whole(f: FrameView, scales: Map<u32, u32>)
    requires
        scales.contains_key(f.track_id) && scales[f.track_id] > 0,
    ensures
        second_of(f, scales) * scales[f.track_id] <= f.decode_time,
        f.decode_time < (second_of(f, scales) + 1) * scales[f.track_id],
{
    let n = f.decode_time as int;
    let d = scales[f.track_id] as int;
    let q = second_of(f, scales) as int;
    assert(q == n / d);
    lemma_fundamental_div_mod(n, d);
    lemma_mod_bound(n, d);
    assert(q * d == d * q) by (nonlinear_arith);
    assert((q + 1) * d == q * d + d) by (nonlinear_arith);
}

/// A GOP plays as long as its first video track does, by id. Where it has none, it plays as
/// long as the longest of its tracks.
pub proof fn law_gop_plays_as_its_video(
    durations: Map<u32, u64>,
    scales: Map<u32, u32>,
    video: Seq<u32>,
    ids: Seq<u32>,
)
    requires
        lists(ids, durations.dom()),
    ensures
        forall|t: u32|
            durations.contains_key(t) && #[trigger] video.contains(t) && (forall|o: u32|
                durations.contains_key(o) && #[trigger] video.contains(o) ==> t <= o)
                ==> playable_us(durations, scales, video) == to_us(scales, t, durations[t]),
        (forall|o: u32| durations.contains_key(o) ==> !#[trigger] video.contains(o)) ==> {
            let us = playable_us(durations, scales, video);
            &&& forall|o: u32|
                durations.contains_key(o) ==> #[trigger] to_us(scales, o, durations[o]) <= us
            &&& us > 0 ==> exists|o: u32|
                durations.contains_key(o) && #[trigger] to_us(scales, o, durations[o]) == us
        },
{
    lemma_sorted(ids, durations.dom());
    lemma_first_video(ids, video);
    lemma_longest(ids, durations, scales);
    assert forall|o: u32| #[trigger] durations.contains_key(o) implies ids.contains(o) by {
        assert(durations.dom().contains(o));
    }
    assert forall|i: int| 0 <= i < ids.len() implies durations.contains_key(#[trigger] ids[i]) by {
        assert(ids.contains(ids[i]));
    }
    assert forall|t: u32|
        durations.contains_key(t) && #[trigger] video.contains(t) && (forall|o: u32|
            durations.contains_key(o) && #[trigger] video.contains(o) ==> t <= o) implies
        playable_us(durations, scales, video) == to_us(scales, t, durations[t]) by {
        assert(ids.contains(t));
        let i = ids.index_of(t);
        assert(ids[i] == t);
        let v = first_video(ids, video)->Some_0;
        assert(first_video(ids, video) is Some);
        assert(video.contains(v));
        assert(ids.contains(v));
        assert(t <= v);
        assert(v <= t);
    }
    if forall|o: u32| durations.contains_key(o) ==> !#[trigger] video.contains(o) {
        assert(first_video(ids, video) is None);
        assert forall|o: u32| durations.contains_key(o) implies #[trigger] to_us(
            scales,
            o,
            durations[o],
        ) <= playable_us(durations, scales, video) by {
            assert(ids.contains(o));
            assert(ids[ids.index_of(o)] == o);
        }
    }
}

proof fn lemma_first_video(ids: Seq<u32>, video: Seq<u32>)
    requires
        ascending(ids),
    ensures
        match first_video(ids, video) {
            Some(v) => ids.contains(v) && video.contains(v) && forall|i: int|
                0 <= i < ids.len() && video.contains(#[trigger] ids[i]) ==> v <= ids[i],
            None => forall|i: int| 0 <= i < ids.len() ==> !video.contains(#[trigger] ids[i]),
        },
    decreases ids.len(),
{
    if ids.len() > 0 {
        if video.contains(ids[0]) {
            assert(ids.contains(ids[0]));
        } else {
            let rest = ids.skip(1);
            assert(ascending(rest));
            lemma_first_video(rest, video);
            assert forall|i: int| 1 <= i < ids.len() implies #[trigger] ids[i] == rest[i - 1] by {}
            if let Some(v) = first_video(rest, video) {
                let k = rest.index_of(v);
                assert(ids[k + 1] == v);
            }
        }
    }
}

proof fn lemma_longest(ids: Seq<u32>, durations: Map<u32, u64>, scales: Map<u32, u32>)
    ensures
        forall|i: int|
            0 <= i < ids.len() ==> to_us(scales, #[trigger] ids[i], durations[ids[i]])
                <= longest_us(ids, durations, scales),
        longest_us(ids, durations, scales) > 0 ==> exists|i: int|
            0 <= i < ids.len() && to_us(scales, #[trigger] ids[i], durations[ids[i]])
                == longest_us(ids, durations, scales),
    decreases ids.len(),
{
    if ids.len() > 0 {
        let rest = ids.drop_last();
        lemma_longest(rest, durations, scales);
        assert forall|i: int| 0 <= i < ids.len() implies to_us(
            scales,
            #[trigger] ids[i],
            durations[ids[i]],
        ) <= longest_us(ids, durations, scales) by {
            if i < ids.len() - 1 {
                assert(rest[i] == ids[i]);
            }
        }
        if longest_us(ids, durations, scales) > 0 {
            let last = to_us(scales, ids.last(), durations[ids.last()]);
            if last > longest_us(rest, durations, scales) {
                assert(ids[ids.len() - 1] == ids.last());
            } else {
                let i = choose|i: int|
                    0 <= i < rest.len() && to_us(scales, #[trigger] rest[i], durations[rest[i]])
                        == longest_us(rest, durations, scales);
                assert(ids[i] == rest[i]);
            }
        }
    }
}

/// Noting the timescales of a catalog gives every track the timescale that its rendition
/// has, the last where several are of one track, and leaves all other tracks as they were.
pub proof fn law_timescales_are_the_catalogs(m: Map<u32, u32>, c: &Catalog, tid: u32)
    ensures
        ({
            let after = map_over(m, track_scales(c));
            &&& c.video matches Some(v) ==> forall|i: int|
                0 <= i < v.renditions.order().len() ==> after.contains_key(
                    #[trigger] v.renditions.nth(i).track_id,
                )
            &&& c.audio matches Some(a) ==> forall|i: int|
                0 <= i < a.renditions.order().len() ==> after.contains_key(
                    #[trigger] a.renditions.nth(i).track_id,
                )
            &&& c.video matches Some(v) ==> forall|i: int|
                0 <= i < v.renditions.order().len() && only_scale(
                    c,
                    tid,
                    (#[trigger] v.renditions.nth(i)).timescale,
                ) && v.renditions.nth(i).track_id == tid ==> after[tid] == v.renditions.nth(
                    i,
                ).timescale
            &&& c.audio matches Some(a) ==> forall|i: int|
                0 <= i < a.renditions.order().len() && only_scale(
                    c,
                    tid,
                    (#[trigger] a.renditions.nth(i)).timescale,
                ) && a.renditions.nth(i).track_id == tid ==> after[tid] == a.renditions.nth(
                    i,
                ).timescale
            &&& is_unlisted(c, tid) ==> after.contains_key(tid) == m.contains_key(tid)
                && after[tid] == m[tid]
        }),
{
    let ps = track_scales(c);
    lemma_map_over(m, ps, tid);
    let after = map_over(m, ps);
    let nv: nat = match c.video {
        Some(v) => v.renditions.order().len(),
        None => 0,
    };
    if let Some(v) = c.video {
        assert forall|i: int| 0 <= i < v.renditions.order().len() implies {
            &&& ps[i] == (#[trigger] v.renditions.nth(i).track_id, v.renditions.nth(i).timescale)
            &&& after.contains_key(v.renditions.nth(i).track_id)
        } by {
            lemma_map_over(m, ps, v.renditions.nth(i).track_id);
            assert(ps[i].0 == v.renditions.nth(i).track_id);
        }
    }
    if let Some(a) = c.audio {
        assert forall|i: int| 0 <= i < a.renditions.order().len() implies {
            &&& ps[nv + i] == (
                #[trigger] a.renditions.nth(i).track_id,
                a.renditions.nth(i).timescale,
            )
            &&& after.contains_key(a.renditions.nth(i).track_id)
        } by {
            lemma_map_over(m, ps, a.renditions.nth(i).track_id);
            assert(ps[nv + i].0 == a.renditions.nth(i).track_id);
        }
    }
    assert forall|k: int| 0 <= k < ps.len() implies is_listed(c, #[trigger] ps[k].0, ps[k].1) by {
        if k < nv {
            assert(c.video->Some_0.renditions.nth(k).track_id == ps[k].0);
        } else {
            assert(c.audio->Some_0.renditions.nth(k - nv).track_id == ps[k].0);
        }
    }
}

/// Whether a rendition of the catalog is of the track `tid` and has the timescale `scale`.
pub open spec fn is_listed(c: &Catalog, tid: u32, scale: u32) -> bool {
    ||| c.video matches Some(v) && exists|i: int|
        0 <= i < v.renditions.order().len() && (#[trigger] v.renditions.nth(i)).track_id == tid
            && v.renditions.nth(i).timescale == scale
    ||| c.audio matches Some(a) && exists|i: int|
        0 <= i < a.renditions.order().len() && (#[trigger] a.renditions.nth(i)).track_id == tid
            && a.renditions.nth(i).timescale == scale
}

/// Whether every rendition of the track `tid` has the timescale `scale`.
pub open spec fn only_scale(c: &Catalog, tid: u32, scale: u32) -> bool {
    forall|s: u32| #[trigger] is_listed(c, tid, s) ==> s == scale
}

/// Whether no rendition is of the track `tid`.
pub open spec fn is_unlisted(c: &Catalog, tid: u32) -> bool {
    forall|s: u32| !#[trigger] is_listed(c, tid, s)
}

proof fn lemma_map_over(m: Map<u32, u32>, ps: Seq<(u32, u32)>, tid: u32)
    ensures
        ({
            let after = map_over(m, ps);
            ||| after.contains_key(tid) == m.contains_key(tid) && after[tid] == m[tid] && forall|
                i: int,
            |
                0 <= i < ps.len() ==> (#[trigger] ps[i]).0 != tid
            ||| after.contains_key(tid) && exists|i: int|
                0 <= i < ps.len() && (#[trigger] ps[i]).0 == tid && ps[i].1 == after[tid]
        }),
    decreases ps.len(),
{
    if ps.len() > 0 {
        let rest = ps.drop_last();
        lemma_map_over(m, rest, tid);
        if ps.last().0 == tid {
            assert(ps[ps.len() - 1].0 == tid);
        } else {
            assert forall|i: int| 0 <= i < rest.len() implies #[trigger] rest[i] == ps[i] by {}
            if exists|i: int|
                0 <= i < rest.len() && (#[trigger] rest[i]).0 == tid && rest[i].1 == map_over(
                    m,
                    rest,
                )[tid] {
                let i = choose|i: int|
                    0 <= i < rest.len() && (#[trigger] rest[i]).0 == tid && rest[i].1 == map_over(
                        m,
                        rest,
                    )[tid];
                assert(ps[i].0 == tid && ps[i].1 == map_over(m, ps)[tid]);
            } else {
                assert forall|i: int| 0 <= i < ps.len() implies (#[trigger] ps[i]).0 != tid by {
                    if i < rest.len() {
                        assert(rest[i].0 != tid);
                    }
                }
            }
        }
    }
}

/// Whether `after` has of the track `tid` what `g` has, behind `n` more bytes: the same bytes
/// follow, and every sample is found where it went.
pub open spec fn is_behind(g: GopView, after: GopView, tid: u32, n: int) -> bool {
    &&& after.tracks.contains_key(tid) && after.tracks[tid].skip(n) == g.tracks[tid]
    &&& after.samples.contains_key(tid)
    &&& after.samples[tid].durations == g.samples[tid].durations
    &&& after.samples[tid].sizes == g.samples[tid].sizes
    &&& after.samples[tid].cts_offsets == g.samples[tid].cts_offsets
    &&& after.samples[tid].sync_indices == g.samples[tid].sync_indices
    &&& after.samples[tid].offsets.len() == g.samples[tid].offsets.len()
    &&& forall|i: int|
        #![trigger g.samples[tid].offsets[i]]
        #![trigger after.samples[tid].offsets[i]]
        0 <= i < g.samples[tid].offsets.len() && g.samples[tid].offsets[i]
            <= g.tracks[tid].len() ==> after.samples[tid].offsets[i] == g.samples[tid].offsets[i]
            + n
}

/// Whether `after` tells the number and the times that `g` does.
pub open spec fn keeps_times(g: GopView, after: GopView) -> bool {
    &&& after.number == g.number
    &&& after.durations == g.durations
    &&& after.sample_counts == g.sample_counts
    &&& after.first_decode_times == g.first_decode_times
    &&& after.duration_us == g.duration_us
}

/// Putting bytes before the tracks of a GOP moves every sample by as many bytes, and what
/// was found at its offset is found at the new one. All times stay as they were.
pub proof fn law_prefix_moves_the_samples(
    g: GopView,
    prefix: Seq<u8>,
    tid: u32,
    fs: Seq<FrameView>,
)
    requires
        g.tracks.contains_key(tid),
        g.samples.contains_key(tid),
        prefix.len() + g.tracks[tid].len() <= u64::MAX,
    ensures
        keeps_times(g, prefixed(g, prefix)),
        is_behind(g, prefixed(g, prefix), tid, prefix.len() as int),
        prefixed(g, prefix).tracks[tid].take(prefix.len() as int) == prefix,
        tabled(g.samples[tid], g.tracks[tid], fs) ==> tabled(
            prefixed(g, prefix).samples[tid],
            prefixed(g, prefix).tracks[tid],
            fs,
        ),
{
    let after = prefixed(g, prefix);
    let n = prefix.len() as int;
    assert(after.tracks[tid] == prefix + g.tracks[tid]);
    assert(after.tracks[tid].skip(n) =~= g.tracks[tid]);
    assert(after.tracks[tid].take(n) =~= prefix);
    lemma_moved(g, after, tid, n);
    if tabled(g.samples[tid], g.tracks[tid], fs) {
        lemma_tabled_behind(g, after, tid, n, fs);
    }
}

proof fn lemma_moved(g: GopView, after: GopView, tid: u32, n: int)
    requires
        0 <= n,
        n + g.tracks[tid].len() <= u64::MAX,
        after.tracks.contains_key(tid) && after.tracks[tid].skip(n) == g.tracks[tid],
        after.samples.contains_key(tid) && after.samples[tid] == moved(g.samples[tid], n),
    ensures
        is_behind(g, after, tid, n),
{
    let a = g.samples[tid].offsets;
    let b = after.samples[tid].offsets;
    assert forall|i: int| 0 <= i < a.len() && a[i] <= g.tracks[tid].len() implies b[i] == a[i] + n by {
        assert(b[i] == sat64(a[i] + n));
    }
}

proof fn lemma_tabled_behind(g: GopView, after: GopView, tid: u32, n: int, fs: Seq<FrameView>)
    requires
        0 <= n <= after.tracks[tid].len(),
        is_behind(g, after, tid, n),
        tabled(g.samples[tid], g.tracks[tid], fs),
    ensures
        tabled(after.samples[tid], after.tracks[tid], fs),
{
    let s = g.samples[tid];
    let t = after.samples[tid];
    let old_data = g.tracks[tid];
    let data = after.tracks[tid];
    assert forall|i: int| #![trigger fs[i]] 0 <= i < fs.len() && is_framed(fs[i]) implies has_at(
        data,
        t.offsets[i] as int,
        payload(fs[i]),
    ) by {
        let part = payload(fs[i]);
        let at = s.offsets[i] as int;
        assert(has_at(old_data, at, part));
        assert(t.offsets[i] == at + n);
        assert(data.subrange(at + n, at + n + part.len()) =~= data.skip(n).subrange(
            at,
            at + part.len(),
        ));
    }
}

/// Where signing puts a prefix of its own before every track, each sample of the signed GOP
/// lies as many bytes further on, and what was found at its offset is found at the new one.
/// All times stay as they were.
pub proof fn law_signing_moves_the_samples<F: Fn(&[u8]) -> Result<Vec<u8>, Error>>(
    sign: F,
    g: GopView,
    signed: Map<u32, Vec<u8>>,
    prefix: int,
    tid: u32,
    fs: Seq<FrameView>,
)
    requires
        0 <= prefix,
        all_signed(sign, g, signed, prefix),
        g.tracks.contains_key(tid),
        g.samples.contains_key(tid),
        signed[tid]@.skip(prefix) == g.tracks[tid],
        signed[tid]@.len() <= u64::MAX,
    ensures
        keeps_times(g, resigned(g, bytes_of_tracks(signed), prefix)),
        is_behind(g, resigned(g, bytes_of_tracks(signed), prefix), tid, prefix),
        resigned(g, bytes_of_tracks(signed), prefix).tracks.dom() == g.tracks.dom(),
        tabled(g.samples[tid], g.tracks[tid], fs) ==> tabled(
            resigned(g, bytes_of_tracks(signed), prefix).samples[tid],
            resigned(g, bytes_of_tracks(signed), prefix).tracks[tid],
            fs,
        ),
{
    let after = resigned(g, bytes_of_tracks(signed), prefix);
    assert(signed.contains_key(tid)) by {
        assert(signed.dom().contains(tid));
    }
    assert(after.tracks[tid] == signed[tid]@);
    assert(after.tracks.dom() =~= g.tracks.dom());
    lemma_moved(g, after, tid, prefix);
    if tabled(g.samples[tid], g.tracks[tid], fs) {
        lemma_tabled_behind(g, after, tid, prefix, fs);
    }
}

/// The size of a body is that of one of its tracks and of all the others: what every track
/// has is counted once. A body without tracks has the size 0.
pub proof fn law_body_is_all_tracks(tracks: Map<u32, Seq<u8>>, ids: Seq<u32>, tid: u32)
    requires
        lists(ids, tracks.dom()),
    ensures
        tracks.contains_key(tid) ==> total_bytes(sorted(tracks.dom()), tracks) == tracks[tid].len()
            + total_bytes(sorted(tracks.remove(tid).dom()), tracks.remove(tid)),
        tracks.dom() == Set::<u32>::empty() ==> total_bytes(sorted(tracks.dom()), tracks) == 0,
{
    lemma_sorted(ids, tracks.dom());
    if tracks.contains_key(tid) {
        assert(ids.contains(tid));
        let k = ids.index_of(tid);
        assert(ids[k] == tid);
        let rest = ids.remove(k);
        let less = tracks.remove(tid);
        assert forall|x: u32| #[trigger] rest.contains(x) == less.dom().contains(x) by {
            if rest.contains(x) {
                let i = rest.index_of(x);
                let j = if i < k {
                    i
                } else {
                    i + 1
                };
                assert(ids[j] == x);
                assert(ids.contains(x));
                assert(x != tid);
            }
            if less.dom().contains(x) {
                assert(ids.contains(x));
                let j = ids.index_of(x);
                let i = if j < k {
                    j
                } else {
                    j - 1
                };
                assert(rest[i] == x);
            }
        }
        assert(ascending(rest));
        lemma_sorted(rest, less.dom());
        lemma_total_without(ids, tracks, k);
        assert forall|i: int| 0 <= i < rest.len() implies less.contains_key(#[trigger] rest[i]) by {
            assert(rest.contains(rest[i]));
            assert(less.dom().contains(rest[i]));
        }
        lemma_total_alike(rest, tracks, less);
    }
    if tracks.dom() == Set::<u32>::empty() {
        if ids.len() > 0 {
            assert(ids.contains(ids[0]));
        }
    }
}

proof fn lemma_total_without(ids: Seq<u32>, tracks: Map<u32, Seq<u8>>, k: int)
    requires
        0 <= k < ids.len(),
    ensures
        total_bytes(ids, tracks) == tracks[ids[k]].len() + total_bytes(ids.remove(k), tracks),
    decreases ids.len(),
{
    if k == ids.len() - 1 {
        assert(ids.remove(k) =~= ids.drop_last());
    } else {
        lemma_total_without(ids.drop_last(), tracks, k);
        assert(ids.remove(k).drop_last() =~= ids.drop_last().remove(k));
        assert(ids.remove(k).last() == ids.last());
    }
}

proof fn lemma_total_alike(ids: Seq<u32>, a: Map<u32, Seq<u8>>, b: Map<u32, Seq<u8>>)
    requires
        forall|i: int| 0 <= i < ids.len() ==> a[#[trigger] ids[i]] == b[ids[i]],
    ensures
        total_bytes(ids, a) == total_bytes(ids, b),
    decreases ids.len(),
{
    if ids.len() > 0 {
        let rest = ids.drop_last();
        assert forall|i: int| 0 <= i < rest.len() implies a[#[trigger] rest[i]] == b[rest[i]] by {
            assert(rest[i] == ids[i]);
        }
        lemma_total_alike(rest, a, b);
        assert(ids[ids.len() - 1] == ids.last());
    }
}

/// A signed GOP is as large as its signed tracks are together.
pub proof fn law_signed_body_is_all_tracks<F: Fn(&[u8]) -> Result<Vec<u8>, Error>>(
    sign: F,
    g: GopView,
    signed: Map<u32, Vec<u8>>,
    prefix: int,
    ids: Seq<u32>,
)
    requires
        0 <= prefix,
        all_signed(sign, g, signed, prefix),
        lists(ids, g.tracks.dom()),
        g.body_size == total_bytes(sorted(g.tracks.dom()), g.tracks),
        total_bytes(sorted(signed.dom()), bytes_of_tracks(signed)) <= u64::MAX,
    ensures
        ({
            let after = resigned(g, bytes_of_tracks(signed), prefix);
            after.body_size == total_bytes(sorted(after.tracks.dom()), after.tracks)
        }),
{
    let after = resigned(g, bytes_of_tracks(signed), prefix);
    assert(after.tracks.dom() =~= g.tracks.dom());
    assert(signed.dom() =~= g.tracks.dom());
    lemma_sorted(ids, g.tracks.dom());
    assert forall|i: int| 0 <= i < ids.len() implies after.tracks[#[trigger] ids[i]].len()
        == g.tracks[ids[i]].len() + prefix by {
        assert(ids.contains(ids[i]));
        assert(g.tracks.dom().contains(ids[i]));
        assert(signed.contains_key(ids[i]));
    }
    lemma_total_grown(ids, g.tracks, after.tracks, prefix);
}

proof fn lemma_total_grown(ids: Seq<u32>, a: Map<u32, Seq<u8>>, b: Map<u32, Seq<u8>>, n: int)
    requires
        forall|i: int| 0 <= i < ids.len() ==> b[#[trigger] ids[i]].len() == a[ids[i]].len() + n,
    ensures
        total_bytes(ids, b) == total_bytes(ids, a) + n * ids.len(),
    decreases ids.len(),
{
    if ids.len() > 0 {
        let rest = ids.drop_last();
        assert forall|i: int| 0 <= i < rest.len() implies b[#[trigger] rest[i]].len()
            == a[rest[i]].len() + n by {
            assert(rest[i] == ids[i]);
        }
        lemma_total_grown(rest, a, b, n);
        assert(ids[ids.len() - 1] == ids.last());
        let k = ids.len();
        assert(n * k == n * (k - 1) + n) by (nonlinear_arith);
    }
}

/// A GOP tells of itself how long it plays, by the durations of its own tracks, and how many
/// bytes its tracks have: as long as its first video track by id or, without video, as the
/// longest of its tracks.
pub proof fn law_gop_tells_its_time_and_size(
    bufs: Map<u32, BufView>,
    scales: Map<u32, u32>,
    video: Seq<u32>,
    number: u32,
    ids: Seq<u32>,
)
    requires
        gop_of(bufs, scales, video, number) matches Some(g) && lists(ids, g.tracks.dom()),
    ensures
        ({
            let g = gop_of(bufs, scales, video, number)->Some_0;
            &&& g.number == number
            &&& g.durations.dom() == g.tracks.dom()
            &&& forall|t: u32|
                is_first_video(g.durations, video, t) ==> g.duration_us == #[trigger] to_us(
                    scales,
                    t,
                    g.durations[t],
                )
            &&& (forall|o: u32| g.durations.contains_key(o) ==> !#[trigger] video.contains(o)) ==> {
                &&& forall|o: u32|
                    g.durations.contains_key(o) ==> #[trigger] to_us(scales, o, g.durations[o])
                        <= g.duration_us
                &&& g.duration_us > 0 ==> exists|o: u32|
                    g.durations.contains_key(o) && #[trigger] to_us(scales, o, g.durations[o])
                        == g.duration_us
            }
            &&& total_bytes(ids, g.tracks) <= u64::MAX ==> g.body_size == total_bytes(
                ids,
                g.tracks,
            )
        }),
{
    let g = gop_of(bufs, scales, video, number)->Some_0;
    assert(g.durations.dom() =~= g.tracks.dom());
    assert(g.tracks.dom() =~= live(bufs));
    law_gop_plays_as_its_video(g.durations, scales, video, ids);
    lemma_sorted(ids, g.tracks.dom());
    lemma_total_counts(ids, g.tracks);
    assert forall|t: u32| is_first_video(g.durations, video, t) implies g.duration_us
        == #[trigger] to_us(scales, t, g.durations[t]) by {
        assert(video.contains(t));
    }
}

/// Whether `t` is the first video track by id among those with durations.
pub open spec fn is_first_video(durations: Map<u32, u64>, video: Seq<u32>, t: u32) -> bool {
    &&& durations.contains_key(t) && video.contains(t)
    &&& forall|o: u32| durations.contains_key(o) && #[trigger] video.contains(o) ==> t <= o
}

/// With bytes put before its tracks, a GOP is as large as its tracks are together.
pub proof fn law_prefixed_body_is_all_tracks(g: GopView, prefix: Seq<u8>, ids: Seq<u32>)
    requires
        lists(ids, g.tracks.dom()),
        total_bytes(ids, g.tracks) + prefix.len() * ids.len() <= u64::MAX,
    ensures
        prefixed(g, prefix).tracks.dom() == g.tracks.dom(),
        prefixed(g, prefix).body_size == total_bytes(ids, g.tracks) + prefix.len() * ids.len(),
{
    let after = prefixed(g, prefix);
    assert(after.tracks.dom() =~= g.tracks.dom());
    lemma_sorted(ids, g.tracks.dom());
    assert forall|i: int| 0 <= i < ids.len() implies after.tracks[#[trigger] ids[i]].len()
        == g.tracks[ids[i]].len() + prefix.len() by {
        assert(ids.contains(ids[i]));
        assert(g.tracks.dom().contains(ids[i]));
    }
    lemma_total_grown(ids, g.tracks, after.tracks, prefix.len() as int);
    lemma_total_counts(ids, after.tracks);
}

proof fn lemma_total_counts(ids: Seq<u32>, tracks: Map<u32, Seq<u8>>)
    ensures
        total_bytes(ids, tracks) >= 0,
    decreases ids.len(),
{
    if ids.len() > 0 {
        lemma_total_counts(ids.drop_last(), tracks);
    }
}

} // verus!
