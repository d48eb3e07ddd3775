//! Where the parts of a body lie, and how tracks are told apart.

use vstd::prelude::*;

use crate::encode::{law_le_value, le_value, two};
use crate::fmp4::video_segments;
use crate::hls::{
    blob_lines, distinct_blobs, entry_key, init_lines, segment_bytes, segment_samples,
    segment_ticks, BlobSegment, BlobTrack, BlobTrackView, TrackEntry,
};
use crate::mailbox::init_frames;
use crate::present::{flat_body, gop_body, track_run};
use crate::segment::{total_bytes, GopView};
use crate::stream::{join, lemma_join_split};
use crate::text::{decimal, is_digit, law_decimal_injective};
use crate::tracks::{lemma_sorted, lists};

verus! {

proof fn lemma_joined_part(parts: Seq<Seq<u8>>, k: int)
    requires
        0 <= k < parts.len(),
    ensures
        ({
            let at = join(parts.take(k)).len() as int;
            &&& at + parts[k].len() <= join(parts).len()
            &&& join(parts).subrange(at, at + parts[k].len()) == parts[k]
        }),
{
    lemma_join_split(parts, k + 1);
    let head = parts.take(k + 1);
    assert(head.drop_last() =~= parts.take(k));
    assert(join(head) == join(parts.take(k)) + parts[k]);
    let at = join(parts.take(k)).len() as int;
    assert(join(parts).subrange(at, at + parts[k].len()) =~= parts[k]);
}

proof fn lemma_run_length(ids: Seq<u32>, tracks: Map<u32, Seq<u8>>)
    ensures
        track_run(ids, tracks).len() == total_bytes(ids, tracks),
    decreases ids.len(),
{
    let parts = ids.map_values(|t: u32| tracks[t]);
    if ids.len() > 0 {
        let rest = ids.drop_last();
        lemma_run_length(rest, tracks);
        assert(rest.map_values(|t: u32| tracks[t]) =~= parts.drop_last());
        assert(parts.last() == tracks[ids.last()]);
    }
}

/// The body of a GOP is its tracks by ascending id, one behind the other: each lies as far
/// on as the tracks with lower ids have bytes.
pub proof fn law_tracks_lie_by_id(g: GopView, ids: Seq<u32>, k: int)
    requires
        lists(ids, g.tracks.dom()),
        0 <= k < ids.len(),
    ensures
        gop_body(g).len() == total_bytes(ids, g.tracks),
        ({
            let at = total_bytes(ids.take(k), g.tracks);
            let data = g.tracks[ids[k]];
            &&& 0 <= at && at + data.len() <= gop_body(g).len()
            &&& gop_body(g).subrange(at, at + data.len()) == data
        }),
{
    lemma_sorted(ids, g.tracks.dom());
    lemma_run_length(ids, g.tracks);
    lemma_run_length(ids.take(k), g.tracks);
    let parts = ids.map_values(|t: u32| g.tracks[t]);
    lemma_joined_part(parts, k);
    assert(ids.take(k).map_values(|t: u32| g.tracks[t]) =~= parts.take(k));
}

/// The body of a flat MP4 is the bodies of the GOPs in their order: that of the GOP `k` lies
/// behind those of the GOPs before it.
pub proof fn law_gops_lie_in_order(gops: Seq<GopView>, k: int)
    requires
        0 <= k < gops.len(),
    ensures
        ({
            let at = flat_body(gops.take(k)).len() as int;
            let data = gop_body(gops[k]);
            &&& at + data.len() <= flat_body(gops).len()
            &&& flat_body(gops).subrange(at, at + data.len()) == data
            &&& k == gops.len() - 1 ==> at + data.len() == flat_body(gops).len()
            &&& k == 0 ==> at == 0
        }),
{
    let parts = gops.map_values(|g: GopView| gop_body(g));
    lemma_joined_part(parts, k);
    assert(gops.take(k).map_values(|g: GopView| gop_body(g)) =~= parts.take(k));
    if k == gops.len() - 1 {
        assert(parts.drop_last() =~= parts.take(k));
    }
}

/// The init segments of the tracks can be told apart: each stands behind its length, and the
/// next one follows at once.
pub proof fn law_init_frames_are_read_back(tracks: Seq<BlobTrack>, i: int)
    requires
        0 <= i < tracks.len(),
        tracks[i].init_data@.len() <= u32::MAX,
    ensures
        ({
            let all = init_frames(tracks, tracks.len() as int);
            let at = init_frames(tracks, i).len() as int;
            let next = init_frames(tracks, i + 1).len() as int;
            let data = tracks[i].init_data@;
            &&& 0 <= at && at + 4 <= next <= all.len()
            &&& le_value(all.subrange(at, at + 4)) == next - (at + 4)
            &&& all.subrange(at + 4, next) == data
        }),
{
    let data = tracks[i].init_data@;
    let all = init_frames(tracks, tracks.len() as int);
    let a = init_frames(tracks, i);
    let b = init_frames(tracks, i + 1);
    let len = crate::encode::le_bytes(data.len() as u64, 4);
    assert(two(32) == 4294967296) by {
        reveal_with_fuel(two, 33);
    }
    law_le_value(data.len() as u64, 4);
    assert(b == a + len + data);
    lemma_frames_go_on(tracks, i + 1, tracks.len() as int);
    let at = a.len() as int;
    let next = b.len() as int;
    assert(all.subrange(at, at + 4) =~= all.take(next).subrange(at, at + 4));
    assert(b.subrange(at, at + 4) =~= len);
    assert(all.subrange(at + 4, next) =~= all.take(next).subrange(at + 4, next));
    assert(b.subrange(at + 4, next) =~= data);
}

proof fn lemma_frames_go_on(tracks: Seq<BlobTrack>, i: int, n: int)
    requires
        0 <= i <= n <= tracks.len(),
    ensures
        init_frames(tracks, i).len() <= init_frames(tracks, n).len(),
        init_frames(tracks, n).take(init_frames(tracks, i).len() as int) == init_frames(tracks, i),
    decreases n - i,
{
    let a = init_frames(tracks, i);
    let b = init_frames(tracks, n);
    if i < n {
        lemma_frames_go_on(tracks, i, n - 1);
        let c = init_frames(tracks, n - 1);
        assert(b.take(a.len() as int) =~= c.take(a.len() as int));
    } else {
        assert(b.take(a.len() as int) =~= a);
    }
}

proof fn lemma_all_digits(n: nat)
    ensures
        decimal(n).len() > 0,
        forall|i: int| 0 <= i < decimal(n).len() ==> is_digit(#[trigger] decimal(n)[i]),
    decreases n,
{
    if n >= 10 {
        lemma_all_digits(n / 10);
    }
}

/// No two tracks of one flat MP4 have one key, and no track of a sidecar has the key of a
/// track of the primary flat MP4.
pub proof fn law_keys_do_not_collide(a: BlobTrackView, b: BlobTrackView, primary: Seq<char>)
    requires
        entry_key(a, primary) == entry_key(b, primary),
    ensures
        (a.blob_cid == primary) == (b.blob_cid == primary),
        a.blob_cid == b.blob_cid ==> a.track_id == b.track_id,
{
    let x = decimal(a.track_id as nat);
    let y = decimal(b.track_id as nat);
    lemma_all_digits(a.track_id as nat);
    lemma_all_digits(b.track_id as nat);
    reveal_strlit(".");
    if a.blob_cid == primary && b.blob_cid != primary {
        lemma_dotted(b, primary);
    }
    if a.blob_cid != primary && b.blob_cid == primary {
        lemma_dotted(a, primary);
    }
    if a.blob_cid == b.blob_cid {
        if a.blob_cid == primary {
            law_decimal_injective(a.track_id, b.track_id);
        } else {
            let head = crate::hls::first_chars(a.blob_cid, 16) + "."@;
            assert((head + x).skip(head.len() as int) =~= x);
            assert((head + y).skip(head.len() as int) =~= y);
            law_decimal_injective(a.track_id, b.track_id);
        }
    }
}

proof fn lemma_dotted(t: BlobTrackView, primary: Seq<char>)
    requires
        t.blob_cid != primary,
    ensures
        exists|i: int|
            0 <= i < entry_key(t, primary).len() && !is_digit(#[trigger] entry_key(t, primary)[i]),
{
    reveal_strlit(".");
    let head = crate::hls::first_chars(t.blob_cid, 16);
    let key = entry_key(t, primary);
    assert(key[head.len() as int] == '.');
}

/// The flat MP4s of a presentation are each counted once, and no other is counted.
pub proof fn law_blobs_are_counted_once(es: Seq<TrackEntry>, n: int)
    requires
        0 <= n <= es.len(),
    ensures
        distinct_blobs(es, n).no_duplicates(),
        forall|cid: Seq<char>| #[trigger]
            distinct_blobs(es, n).contains(cid) == exists|i: int|
                0 <= i < n && (#[trigger] es[i]).track.blob_cid@ == cid,
    decreases n,
{
    if n > 0 {
        law_blobs_are_counted_once(es, n - 1);
        let before = distinct_blobs(es, n - 1);
        let after = distinct_blobs(es, n);
        let last = es[n - 1].track.blob_cid@;
        assert forall|cid: Seq<char>| #[trigger]
            after.contains(cid) == (before.contains(cid) || cid == last) by {
            if !before.contains(last) {
                if before.contains(cid) {
                    assert(after[before.index_of(cid)] == cid);
                }
                assert(after[before.len() as int] == last);
                if after.contains(cid) && cid != last {
                    assert(before[after.index_of(cid)] == cid);
                }
            }
        }
        assert forall|cid: Seq<char>| #[trigger] after.contains(cid) == exists|i: int|
            0 <= i < n && (#[trigger] es[i]).track.blob_cid@ == cid by {
            if before.contains(cid) {
                let i = choose|i: int|
                    0 <= i < n - 1 && (#[trigger] es[i]).track.blob_cid@ == cid;
                assert(0 <= i < n && es[i].track.blob_cid@ == cid);
            }
        }
        if !before.contains(last) {
            assert forall|i: int, j: int| 0 <= i < j < after.len() implies after[i] != after[j] by {
                if j == before.len() {
                    assert(before.contains(before[i]));
                }
            }
        }
    }
}

/// How many segments the video tracks have adds up: those of two lists of tracks are those
/// of both joined, and those of one track are its own where it is a video track.
pub proof fn law_video_segments_add_up(a: Seq<BlobTrack>, b: Seq<BlobTrack>, t: BlobTrack)
    ensures
        video_segments(a + b) == video_segments(a) + video_segments(b),
        t.track_type@ == "video"@ ==> video_segments(seq![t]) == t.segments@.len(),
        t.track_type@ != "video"@ ==> video_segments(seq![t]) == 0,
    decreases b.len(),
{
    assert(seq![t].drop_last() =~= seq![]);
    assert(video_segments(seq![]) == 0);
    assert(seq![t].last() == t);
    if b.len() == 0 {
        assert(a + b =~= a);
    } else {
        law_video_segments_add_up(a, b.drop_last(), t);
        assert((a + b).drop_last() =~= a + b.drop_last());
        assert((a + b).last() == b.last());
    }
}

/// The totals of a track add up: those of two runs of segments are those of both joined,
/// and those of one segment are its own.
pub proof fn law_totals_add_up(a: Seq<BlobSegment>, b: Seq<BlobSegment>, s: BlobSegment)
    ensures
        segment_bytes(a + b) == segment_bytes(a) + segment_bytes(b),
        segment_ticks(a + b) == segment_ticks(a) + segment_ticks(b),
        segment_samples(a + b) == segment_samples(a) + segment_samples(b),
        segment_bytes(seq![s]) == s.size,
        segment_ticks(seq![s]) == s.duration_ticks,
        segment_samples(seq![s]) == s.sample_count,
    decreases b.len(),
{
    assert(seq![s].drop_last() =~= seq![]);
    assert(segment_bytes(seq![]) == 0);
    assert(segment_ticks(seq![]) == 0);
    assert(segment_samples(seq![]) == 0);
    assert(seq![s].last() == s);
    if b.len() == 0 {
        assert(a + b =~= a);
    } else {
        law_totals_add_up(a, b.drop_last(), s);
        assert((a + b).drop_last() =~= a + b.drop_last());
        assert((a + b).last() == b.last());
    }
}

/// Every init segment and every flat MP4 of a presentation is named in the list of what was
/// written, each with its kind: an init segment with the type of a track, a flat MP4, where
/// no init segment has its identifier, with its size.
pub proof fn law_all_that_was_written_is_named(es: Seq<TrackEntry>, i: int)
    requires
        0 <= i < es.len(),
    ensures
        ({
            let n = es.len() as int;
            let lines = blob_lines(init_lines(es, n), es, n).0;
            let t = es[i].track;
            &&& exists|k: int|
                0 <= k < n && (#[trigger] es[k]).track.init_cid@ == t.init_cid@ && lines.contains(
                    t.init_cid@ + ".mp4  init("@ + es[k].track.track_type@ + ")"@,
                )
            &&& (forall|k: int| 0 <= k < n ==> (#[trigger] es[k]).track.init_cid@ != t.blob_cid@)
                ==> exists|k: int|
                0 <= k < n && (#[trigger] es[k]).track.blob_cid@ == t.blob_cid@ && lines.contains(
                    t.blob_cid@ + ".mp4  blob("@ + decimal(es[k].track.blob_size as nat)
                        + " bytes)"@,
                )
        }),
{
    let n = es.len() as int;
    lemma_inits_named(es, n);
    lemma_blobs_named(init_lines(es, n), es, n);
    let (lines, seen) = blob_lines(init_lines(es, n), es, n);
    let t = es[i].track;
    assert(init_named(es, n, init_lines(es, n).0, t.init_cid@));
    let k = choose|k: int|
        0 <= k < n && (#[trigger] es[k]).track.init_cid@ == t.init_cid@ && init_lines(
            es,
            n,
        ).0.contains(t.init_cid@ + ".mp4  init("@ + es[k].track.track_type@ + ")"@);
    assert(lines.contains(t.init_cid@ + ".mp4  init("@ + es[k].track.track_type@ + ")"@));
    if forall|k: int| 0 <= k < n ==> (#[trigger] es[k]).track.init_cid@ != t.blob_cid@ {
        assert(!init_lines(es, n).1.contains(t.blob_cid@)) by {
            if init_lines(es, n).1.contains(t.blob_cid@) {
                let k = choose|k: int|
                    0 <= k < n && (#[trigger] es[k]).track.init_cid@ == t.blob_cid@;
                assert(es[k].track.init_cid@ != t.blob_cid@);
            }
        }
        assert(blob_named(es, n, lines, t.blob_cid@));
    }
}

/// Whether `lines` name the init segment `cid` of one of the first `n` entries.
pub open spec fn init_named(es: Seq<TrackEntry>, n: int, lines: Seq<Seq<char>>, cid: Seq<char>) -> bool {
    exists|k: int|
        0 <= k < n && (#[trigger] es[k]).track.init_cid@ == cid && lines.contains(
            cid + ".mp4  init("@ + es[k].track.track_type@ + ")"@,
        )
}

/// Whether `lines` name the flat MP4 `cid` of one of the first `n` entries.
pub open spec fn blob_named(es: Seq<TrackEntry>, n: int, lines: Seq<Seq<char>>, cid: Seq<char>) -> bool {
    exists|k: int|
        0 <= k < n && (#[trigger] es[k]).track.blob_cid@ == cid && lines.contains(
            cid + ".mp4  blob("@ + decimal(es[k].track.blob_size as nat) + " bytes)"@,
        )
}

proof fn lemma_pushed(s: Seq<Seq<char>>, x: Seq<char>)
    ensures
        forall|y: Seq<char>| #[trigger] s.push(x).contains(y) == (s.contains(y) || x == y),
{
    let t = s.push(x);
    assert forall|y: Seq<char>| #[trigger] t.contains(y) == (s.contains(y) || x == y) by {
        if s.contains(y) {
            assert(t[s.index_of(y)] == y);
        }
        assert(t[s.len() as int] == x);
        if t.contains(y) && x != y {
            assert(s[t.index_of(y)] == y);
        }
    }
}

proof fn lemma_inits_named(es: Seq<TrackEntry>, n: int)
    requires
        0 <= n <= es.len(),
    ensures
        forall|i: int|
            0 <= i < n ==> init_named(
                es,
                n,
                init_lines(es, n).0,
                (#[trigger] es[i]).track.init_cid@,
            ),
        forall|cid: Seq<char>| #[trigger]
            init_lines(es, n).1.contains(cid) == exists|k: int|
                0 <= k < n && (#[trigger] es[k]).track.init_cid@ == cid,
    decreases n,
{
    if n > 0 {
        lemma_inits_named(es, n - 1);
        let (lines, seen) = init_lines(es, n - 1);
        let (more, all) = init_lines(es, n);
        let t = es[n - 1].track;
        let x = t.init_cid@ + ".mp4  init("@ + t.track_type@ + ")"@;
        lemma_pushed(lines, x);
        lemma_pushed(seen, t.init_cid@);
        assert forall|y: Seq<char>| lines.contains(y) implies #[trigger] more.contains(y) by {}
        assert forall|cid: Seq<char>| #[trigger] all.contains(cid) == exists|k: int|
            0 <= k < n && (#[trigger] es[k]).track.init_cid@ == cid by {
            if seen.contains(cid) {
                let k = choose|k: int|
                    0 <= k < n - 1 && (#[trigger] es[k]).track.init_cid@ == cid;
                assert(0 <= k < n && es[k].track.init_cid@ == cid);
            }
        }
        assert forall|i: int| 0 <= i < n implies init_named(
            es,
            n,
            more,
            (#[trigger] es[i]).track.init_cid@,
        ) by {
            let cid = es[i].track.init_cid@;
            if seen.contains(cid) {
                let j = choose|j: int|
                    0 <= j < n - 1 && (#[trigger] es[j]).track.init_cid@ == cid;
                assert(init_named(es, n - 1, lines, es[j].track.init_cid@));
                let k = choose|k: int|
                    0 <= k < n - 1 && (#[trigger] es[k]).track.init_cid@ == cid
                        && lines.contains(
                        cid + ".mp4  init("@ + es[k].track.track_type@ + ")"@,
                    );
                assert(0 <= k < n && more.contains(
                    cid + ".mp4  init("@ + es[k].track.track_type@ + ")"@,
                ));
            } else {
                assert(i == n - 1);
                assert(more.contains(x));
            }
        }
    }
}

proof fn lemma_blobs_named(start: (Seq<Seq<char>>, Seq<Seq<char>>), es: Seq<TrackEntry>, n: int)
    requires
        0 <= n <= es.len(),
    ensures
        forall|y: Seq<char>| #[trigger]
            start.0.contains(y) ==> blob_lines(start, es, n).0.contains(y),
        forall|i: int|
            0 <= i < n && !start.1.contains((#[trigger] es[i]).track.blob_cid@) ==> blob_named(
                es,
                n,
                blob_lines(start, es, n).0,
                es[i].track.blob_cid@,
            ),
        forall|cid: Seq<char>| #[trigger]
            blob_lines(start, es, n).1.contains(cid) == (start.1.contains(cid) || exists|k: int|
                0 <= k < n && (#[trigger] es[k]).track.blob_cid@ == cid),
    decreases n,
{
    if n > 0 {
        lemma_blobs_named(start, es, n - 1);
        let (lines, seen) = blob_lines(start, es, n - 1);
        let (more, all) = blob_lines(start, es, n);
        let t = es[n - 1].track;
        let x = t.blob_cid@ + ".mp4  blob("@ + decimal(t.blob_size as nat) + " bytes)"@;
        lemma_pushed(lines, x);
        lemma_pushed(seen, t.blob_cid@);
        assert forall|y: Seq<char>| lines.contains(y) implies #[trigger] more.contains(y) by {}
        assert forall|cid: Seq<char>| #[trigger]
            all.contains(cid) == (start.1.contains(cid) || exists|k: int|
                0 <= k < n && (#[trigger] es[k]).track.blob_cid@ == cid) by {
            if seen.contains(cid) && !start.1.contains(cid) {
                let k = choose|k: int|
                    0 <= k < n - 1 && (#[trigger] es[k]).track.blob_cid@ == cid;
                assert(0 <= k < n && es[k].track.blob_cid@ == cid);
            }
        }
        assert forall|i: int|
            0 <= i < n && !start.1.contains((#[trigger] es[i]).track.blob_cid@) implies blob_named(
            es,
            n,
            more,
            es[i].track.blob_cid@,
        ) by {
            let cid = es[i].track.blob_cid@;
            if seen.contains(cid) {
                let j = choose|j: int|
                    0 <= j < n - 1 && (#[trigger] es[j]).track.blob_cid@ == cid;
                assert(blob_named(es, n - 1, lines, es[j].track.blob_cid@));
                let k = choose|k: int|
                    0 <= k < n - 1 && (#[trigger] es[k]).track.blob_cid@ == cid
                        && lines.contains(
                        cid + ".mp4  blob("@ + decimal(es[k].track.blob_size as nat)
                            + " bytes)"@,
                    );
                assert(0 <= k < n && more.contains(
                    cid + ".mp4  blob("@ + decimal(es[k].track.blob_size as nat) + " bytes)"@,
                ));
            } else {
                assert(i == n - 1);
                assert(more.contains(x));
            }
        }
    }
}

} // verus!
