//! What holds of every GOP, and of every init segment, of an event stream.

use std::collections::BTreeMap;

use vstd::prelude::*;

use crate::catalog::{Catalog, CatalogView};
use crate::cbor::{CborEvent, CborEventView, GopEvent};
use crate::error::Error;
use crate::events::{
    all_events, begins_gop, catalog_ids, closing_events, events_so_far, gop_with, is_video,
    next_events, no_gop, realized, realizes, state_after, ticks_of, total_ticks, OpenGop, Part,
    PlannedView,
};
use crate::reader::{
    aggregated, audio_named, last_audio, last_video, law_aggregate_is_union, video_named,
};
use crate::replay::{gops_of, lemma_closing_gop, lemma_gops_joined};
use crate::segment::{
    first_video, longest_us, map_over, playable_us, sat64, track_scales, GopView,
};
use crate::text::{decimal, law_decimal_injective};
use crate::tracks::{ascending, lemma_sorted, lists};

verus! {

/// The catalogs of the segments `parts`.
pub open spec fn part_catalogs(parts: Seq<Part>) -> Seq<CatalogView> {
    parts.map_values(|p: Part| p.catalog@)
}

/// Whether each of the segments `parts` describes its own track and no other, under a
/// name that no other track has.
pub open spec fn describe_themselves(parts: Seq<Part>) -> bool {
    &&& forall|i: int|
        0 <= i < parts.len() ==> catalog_ids((#[trigger] parts[i]).catalog@)
            == set![parts[i].index.track_id]
    &&& forall|i: int, j: int, name: Seq<char>|
        #![trigger video_named(parts[i].catalog@, name), video_named(parts[j].catalog@, name)]
        0 <= i < parts.len() && 0 <= j < parts.len() && video_named(parts[i].catalog@, name) is Some
            && video_named(parts[j].catalog@, name) is Some ==> parts[i].index.track_id
            == parts[j].index.track_id
    &&& forall|i: int, j: int, name: Seq<char>|
        #![trigger audio_named(parts[i].catalog@, name), audio_named(parts[j].catalog@, name)]
        0 <= i < parts.len() && 0 <= j < parts.len() && audio_named(parts[i].catalog@, name) is Some
            && audio_named(parts[j].catalog@, name) is Some ==> parts[i].index.track_id
            == parts[j].index.track_id
}

/// The tracks of the segments `parts`.
pub open spec fn tracks_seen(parts: Seq<Part>) -> Set<u32> {
    Set::new(|t: u32| exists|i: int| 0 <= i < parts.len() && (#[trigger] parts[i]).index.track_id == t)
}

proof fn lemma_running(parts: Seq<Part>)
    ensures
        state_after(parts).running == aggregated(part_catalogs(parts)),
    decreases parts.len(),
{
    if parts.len() > 0 {
        lemma_running(parts.drop_last());
        assert(part_catalogs(parts).drop_last() =~= part_catalogs(parts.drop_last()));
        assert(part_catalogs(parts).last() == parts.last().catalog@);
    }
}

proof fn lemma_last_video(cats: Seq<CatalogView>, name: Seq<char>)
    ensures
        last_video(cats, name) matches Some(x) ==> exists|j: int|
            0 <= j < cats.len() && #[trigger] video_named(cats[j], name) == Some(x),
        last_video(cats, name) is None ==> forall|j: int|
            0 <= j < cats.len() ==> #[trigger] video_named(cats[j], name) is None,
    decreases cats.len(),
{
    if cats.len() > 0 {
        let before = cats.drop_last();
        let n = cats.len() - 1;
        lemma_last_video(before, name);
        assert(cats[n] == cats.last());
        if video_named(cats[n], name) is None {
            if let Some(x) = last_video(before, name) {
                let j = choose|j: int|
                    0 <= j < before.len() && #[trigger] video_named(before[j], name) == Some(x);
                assert(video_named(cats[j], name) == Some(x));
            } else {
                assert forall|j: int| 0 <= j < cats.len() implies #[trigger] video_named(
                    cats[j],
                    name,
                ) is None by {
                    if j < n {
                        assert(video_named(before[j], name) is None);
                    }
                }
            }
        }
    }
}

proof fn lemma_last_audio(cats: Seq<CatalogView>, name: Seq<char>)
    ensures
        last_audio(cats, name) matches Some(x) ==> exists|j: int|
            0 <= j < cats.len() && #[trigger] audio_named(cats[j], name) == Some(x),
        last_audio(cats, name) is None ==> forall|j: int|
            0 <= j < cats.len() ==> #[trigger] audio_named(cats[j], name) is None,
    decreases cats.len(),
{
    if cats.len() > 0 {
        let before = cats.drop_last();
        let n = cats.len() - 1;
        lemma_last_audio(before, name);
        assert(cats[n] == cats.last());
        if audio_named(cats[n], name) is None {
            if let Some(x) = last_audio(before, name) {
                let j = choose|j: int|
                    0 <= j < before.len() && #[trigger] audio_named(before[j], name) == Some(x);
                assert(audio_named(cats[j], name) == Some(x));
            } else {
                assert forall|j: int| 0 <= j < cats.len() implies #[trigger] audio_named(
                    cats[j],
                    name,
                ) is None by {
                    if j < n {
                        assert(audio_named(before[j], name) is None);
                    }
                }
            }
        }
    }
}

/// A track that a catalog describes has a rendition of its own there.
proof fn lemma_described(c: CatalogView, t: u32) -> (name: Seq<char>)
    requires
        catalog_ids(c).contains(t),
    ensures
        (video_named(c, name) matches Some(v) && v.track_id == t) || (audio_named(c, name)
            matches Some(a) && a.track_id == t),
{
    if let Some(v) = c.video {
        if exists|n: Seq<char>| #[trigger]
            v.renditions.contains_key(n) && v.renditions[n].track_id == t {
            choose|n: Seq<char>| #[trigger]
                v.renditions.contains_key(n) && v.renditions[n].track_id == t
        } else {
            let a = c.audio->Some_0;
            choose|n: Seq<char>| #[trigger] a.contains_key(n) && a[n].track_id == t
        }
    } else {
        let a = c.audio->Some_0;
        choose|n: Seq<char>| #[trigger] a.contains_key(n) && a[n].track_id == t
    }
}

proof fn lemma_named(c: CatalogView, name: Seq<char>)
    ensures
        video_named(c, name) matches Some(v) ==> catalog_ids(c).contains(v.track_id),
        audio_named(c, name) matches Some(a) ==> catalog_ids(c).contains(a.track_id),
{
    if let Some(v) = c.video {
        if v.renditions.contains_key(name) {
            assert(catalog_ids(c).contains(v.renditions[name].track_id));
        }
    }
    if let Some(a) = c.audio {
        if a.contains_key(name) {
            assert(catalog_ids(c).contains(a[name].track_id));
        }
    }
}

proof fn lemma_tracks_described(parts: Seq<Part>)
    requires
        describe_themselves(parts),
    ensures
        catalog_ids(aggregated(part_catalogs(parts))) == tracks_seen(parts),
{
    let cats = part_catalogs(parts);
    let all = aggregated(cats);
    assert forall|t: u32| #[trigger] catalog_ids(all).contains(t) implies tracks_seen(
        parts,
    ).contains(t) by {
        let name = lemma_described(all, t);
        law_aggregate_is_union(cats, name);
        lemma_last_video(cats, name);
        lemma_last_audio(cats, name);
        if video_named(all, name) matches Some(v) && v.track_id == t {
            let x = video_named(all, name)->Some_0;
            let j = choose|j: int|
                0 <= j < cats.len() && #[trigger] video_named(cats[j], name) == Some(x);
            lemma_named(cats[j], name);
            assert(catalog_ids(parts[j].catalog@).contains(t));
            assert(parts[j].index.track_id == t);
        } else {
            let x = audio_named(all, name)->Some_0;
            let j = choose|j: int|
                0 <= j < cats.len() && #[trigger] audio_named(cats[j], name) == Some(x);
            lemma_named(cats[j], name);
            assert(catalog_ids(parts[j].catalog@).contains(t));
            assert(parts[j].index.track_id == t);
        }
    }
    assert forall|t: u32| #[trigger] tracks_seen(parts).contains(t) implies catalog_ids(
        all,
    ).contains(t) by {
        let i = choose|i: int|
            0 <= i < parts.len() && (#[trigger] parts[i]).index.track_id == t;
        assert(catalog_ids(parts[i].catalog@).contains(t));
        let name = lemma_described(parts[i].catalog@, t);
        assert(cats[i] == parts[i].catalog@);
        law_aggregate_is_union(cats, name);
        lemma_last_video(cats, name);
        lemma_last_audio(cats, name);
        lemma_named(all, name);
        if video_named(parts[i].catalog@, name) matches Some(v) && v.track_id == t {
            assert(video_named(cats[i], name) is Some);
            let x = last_video(cats, name)->Some_0;
            let j = choose|j: int|
                0 <= j < cats.len() && #[trigger] video_named(cats[j], name) == Some(x);
            lemma_named(cats[j], name);
            assert(video_named(parts[j].catalog@, name) is Some);
            assert(catalog_ids(parts[j].catalog@).contains(x.track_id));
        } else {
            assert(audio_named(cats[i], name) is Some);
            let x = last_audio(cats, name)->Some_0;
            let j = choose|j: int|
                0 <= j < cats.len() && #[trigger] audio_named(cats[j], name) == Some(x);
            lemma_named(cats[j], name);
            assert(audio_named(parts[j].catalog@, name) is Some);
            assert(catalog_ids(parts[j].catalog@).contains(x.track_id));
        }
    }
    assert(catalog_ids(all) =~= tracks_seen(parts));
}

/// After how many of the segments `parts` the init segment comes that is event `j`.
proof fn lemma_init_place(parts: Seq<Part>, j: int) -> (n: int)
    requires
        0 <= j < all_events(parts).len(),
        all_events(parts)[j] is Init,
    ensures
        0 < n <= parts.len(),
        all_events(parts).take(j) == events_so_far(parts.take(n)),
        all_events(parts)[j] == PlannedView::Init(state_after(parts.take(n)).running),
    decreases parts.len(),
{
    let so_far = events_so_far(parts);
    let all = all_events(parts);
    if j >= so_far.len() {
        let last = closing_events(state_after(parts));
        assert(all[j] == last[j - so_far.len()]);
        assert(parts.take(parts.len() as int) =~= parts);
        assert(all.take(j) =~= so_far);
        if parts.len() == 0 {
            assert(last.len() == 0);
        }
        parts.len() as int
    } else {
        let before = parts.drop_last();
        let p = parts.last();
        let earlier = all_events(before);
        let st = state_after(before);
        assert(so_far == events_so_far(before) + next_events(st, p));
        assert(earlier[j] == so_far[j]);
        let n = lemma_init_place(before, j);
        assert(before.take(n) =~= parts.take(n));
        assert(all.take(j) =~= earlier.take(j));
        n
    }
}

/// An init segment of an event stream describes the tracks that were seen until it
/// comes, and no others: its catalog is that of the segments up to there, the events
/// before it being those due with them.
pub proof fn law_init_describes_the_tracks_so_far<
    I: Fn(&Catalog) -> Result<Vec<u8>, Error>,
    T: Fn(&Catalog) -> Result<BTreeMap<u32, Vec<u8>>, Error>,
>(
    build_init: I,
    build_track_inits: T,
    parts: Seq<Part>,
    evs: Seq<CborEvent>,
    j: int,
) -> (n: int)
    requires
        realized(build_init, build_track_inits, all_events(parts), evs),
        0 <= j < evs.len(),
        evs[j]@ is Init,
    ensures
        0 < n <= parts.len(),
        all_events(parts).take(j) == events_so_far(parts.take(n)),
        evs[j]@ matches CborEventView::Init { version, data, catalog, track_inits } && version == 1
            && catalog == Some(aggregated(part_catalogs(parts.take(n)))),
        describe_themselves(parts) ==> catalog_ids(aggregated(part_catalogs(parts.take(n))))
            == tracks_seen(parts.take(n)),
{
    assert(realizes(build_init, build_track_inits, all_events(parts)[j], evs[j]));
    let n = lemma_init_place(parts, j);
    lemma_running(parts.take(n));
    if describe_themselves(parts) {
        let seen = parts.take(n);
        assert forall|i: int| 0 <= i < seen.len() implies catalog_ids(
            (#[trigger] seen[i]).catalog@,
        ) == set![seen[i].index.track_id] by {
            assert(seen[i] == parts[i]);
        }
        assert(describe_themselves(seen)) by {
            assert forall|i: int, k: int, name: Seq<char>|
                #![trigger video_named(seen[i].catalog@, name), video_named(seen[k].catalog@, name)]
                0 <= i < seen.len() && 0 <= k < seen.len() && video_named(
                    seen[i].catalog@,
                    name,
                ) is Some && video_named(seen[k].catalog@, name) is Some implies
                seen[i].index.track_id == seen[k].index.track_id by {
                assert(video_named(parts[i].catalog@, name) is Some);
                assert(video_named(parts[k].catalog@, name) is Some);
            }
            assert forall|i: int, k: int, name: Seq<char>|
                #![trigger audio_named(seen[i].catalog@, name), audio_named(seen[k].catalog@, name)]
                0 <= i < seen.len() && 0 <= k < seen.len() && audio_named(
                    seen[i].catalog@,
                    name,
                ) is Some && audio_named(seen[k].catalog@, name) is Some implies
                seen[i].index.track_id == seen[k].index.track_id by {
                assert(audio_named(parts[i].catalog@, name) is Some);
                assert(audio_named(parts[k].catalog@, name) is Some);
            }
        }
        lemma_tracks_described(seen);
    }
    n
}

/// Whether `k` is the text of one of `ids`.
pub open spec fn names_one_of(ids: Seq<u32>, k: Seq<char>) -> bool {
    exists|i: int| 0 <= i < ids.len() && k == decimal(#[trigger] ids[i] as nat)
}

/// How many bytes the tracks `ids` of `g` have.
pub open spec fn tracks_bytes(g: GopEvent, ids: Seq<u32>) -> int
    decreases ids.len(),
{
    if ids.len() == 0 {
        0
    } else {
        tracks_bytes(g, ids.drop_last()) + g.tracks[decimal(ids.last() as nat)].len()
    }
}

/// Whether `g` has the tracks `ids`, which ascend, and the bytes of all of them.
pub open spec fn made_of(g: GopEvent, ids: Seq<u32>) -> bool {
    &&& ascending(ids)
    &&& forall|k: Seq<char>| #[trigger] g.tracks.contains_key(k) == names_one_of(ids, k)
    &&& g.body_size == sat64(tracks_bytes(g, ids))
}

proof fn lemma_bytes_kept(a: GopEvent, b: GopEvent, ids: Seq<u32>, tid: u32)
    requires
        forall|i: int| 0 <= i < ids.len() ==> #[trigger] ids[i] < tid,
        forall|k: Seq<char>| k != decimal(tid as nat) ==> #[trigger] b.tracks[k] == a.tracks[k],
    ensures
        tracks_bytes(b, ids) == tracks_bytes(a, ids),
        tracks_bytes(a, ids) >= 0,
    decreases ids.len(),
{
    if ids.len() > 0 {
        assert forall|i: int| 0 <= i < ids.drop_last().len() implies #[trigger] ids.drop_last()[i]
            < tid by {
            assert(ids.drop_last()[i] == ids[i]);
        }
        lemma_bytes_kept(a, b, ids.drop_last(), tid);
        let t = ids[ids.len() - 1];
        if decimal(t as nat) == decimal(tid as nat) {
            law_decimal_injective(t, tid);
        }
    }
}

/// A GOP with one more segment, of a track after all of its own.
proof fn lemma_made_of_more(g: OpenGop, ids: Seq<u32>, p: Part, scales: Map<u32, u32>)
    requires
        made_of(g.event, ids),
        forall|i: int| 0 <= i < ids.len() ==> #[trigger] ids[i] < p.index.track_id,
    ensures
        made_of(gop_with(g, p, scales).event, ids.push(p.index.track_id)),
{
    let tid = p.index.track_id;
    let more = ids.push(tid);
    let next = gop_with(g, p, scales).event;
    lemma_bytes_kept(g.event, next, ids, tid);
    assert(more.drop_last() =~= ids);
    assert forall|k: Seq<char>| #[trigger] next.tracks.contains_key(k) == names_one_of(
        more,
        k,
    ) by {
        assert(g.event.tracks.contains_key(k) == names_one_of(ids, k));
        if names_one_of(ids, k) {
            let i = choose|i: int| 0 <= i < ids.len() && k == decimal(#[trigger] ids[i] as nat);
            assert(more[i] == ids[i]);
        }
        if k == decimal(tid as nat) {
            assert(more[ids.len() as int] == tid);
        }
        if names_one_of(more, k) {
            let i = choose|i: int| 0 <= i < more.len() && k == decimal(#[trigger] more[i] as nat);
            if i < ids.len() {
                assert(ids[i] == more[i]);
            }
        }
    }
    assert forall|i: int, j: int| 0 <= i < j < more.len() implies #[trigger] more[i]
        < #[trigger] more[j] by {
        if j < ids.len() {
            assert(ids[i] < ids[j]);
        } else {
            assert(ids[i] < tid);
        }
    }
}

/// Whether what `g` says of its tracks agrees: each map has the tracks that the others
/// have, and a track has as many samples and ticks as its list of samples tells, and as
/// many bytes as its segment.
pub open spec fn maps_agree(g: GopEvent) -> bool {
    &&& g.durations.dom() == g.tracks.dom()
    &&& g.sample_counts.dom() == g.tracks.dom()
    &&& g.samples.dom() == g.tracks.dom()
    &&& g.track_byte_sizes.dom() == g.tracks.dom()
    &&& g.first_decode_times.dom() == g.tracks.dom()
    &&& forall|k: Seq<char>| #[trigger]
        g.tracks.contains_key(k) ==> {
            &&& g.sample_counts[k] == g.samples[k].durations.len() as u32
            &&& g.durations[k] == sat64(total_ticks(g.samples[k].durations))
            &&& g.track_byte_sizes[k] == g.tracks[k].len() as u64
        }
}

proof fn lemma_open_agrees(parts: Seq<Part>)
    ensures
        state_after(parts).open matches Some(g) ==> maps_agree(g.event),
    decreases parts.len(),
{
    if parts.len() > 0 {
        let before = parts.drop_last();
        lemma_open_agrees(before);
        let p = parts.last();
        let st = state_after(before);
        let g = match st.open {
            Some(g) => if begins_gop(st, p.index.track_id) {
                no_gop()
            } else {
                g
            },
            None => no_gop(),
        };
        assert(maps_agree(g.event));
        let next = gop_with(g, p, state_after(parts).scales).event;
        assert(next.durations.dom() =~= next.tracks.dom());
        assert(next.sample_counts.dom() =~= next.tracks.dom());
        assert(next.samples.dom() =~= next.tracks.dom());
        assert(next.track_byte_sizes.dom() =~= next.tracks.dom());
        assert(next.first_decode_times.dom() =~= next.tracks.dom());
        let key = decimal(p.index.track_id as nat);
        assert forall|k: Seq<char>| #[trigger] next.tracks.contains_key(k) implies {
            &&& next.sample_counts[k] == next.samples[k].durations.len() as u32
            &&& next.durations[k] == sat64(total_ticks(next.samples[k].durations))
            &&& next.track_byte_sizes[k] == next.tracks[k].len() as u64
        } by {
            if k != key {
                assert(g.event.tracks.contains_key(k));
            }
        }
        assert(state_after(parts).open->Some_0.event == next);
    }
}

/// After how many of the segments `parts` the GOP `i` of their events ends.
proof fn lemma_gop_place(parts: Seq<Part>, i: int) -> (n: int)
    requires
        0 <= i < gops_of(all_events(parts)).len(),
    ensures
        0 < n <= parts.len(),
        state_after(parts.take(n)).open matches Some(g) && gops_of(all_events(parts))[i] == g.event,
    decreases parts.len(),
{
    let st = state_after(parts);
    let so_far = gops_of(events_so_far(parts));
    lemma_gops_joined(events_so_far(parts), closing_events(st));
    lemma_closing_gop(st);
    if i >= so_far.len() {
        assert(parts.take(parts.len() as int) =~= parts);
        parts.len() as int
    } else {
        let before = parts.drop_last();
        let earlier = state_after(before);
        let p = parts.last();
        lemma_gops_joined(events_so_far(before), closing_events(earlier));
        lemma_gops_joined(events_so_far(before), next_events(earlier, p));
        lemma_closing_gop(earlier);
        if !begins_gop(earlier, p.index.track_id) {
            assert(gops_of(next_events(earlier, p)) =~= seq![]);
        }
        assert(gops_of(all_events(before))[i] == so_far[i]);
        let n = lemma_gop_place(before, i);
        assert(before.take(n) =~= parts.take(n));
        n
    }
}

/// What every GOP of an event stream says of its tracks agrees, and its body has the
/// bytes of its tracks, `ids`, and no others.
pub proof fn law_event_maps_agree(parts: Seq<Part>, i: int) -> (ids: Seq<u32>)
    requires
        0 <= i < gops_of(all_events(parts)).len(),
    ensures
        maps_agree(gops_of(all_events(parts))[i]),
        made_of(gops_of(all_events(parts))[i], ids),
        ids.len() > 0,
{
    let n = lemma_gop_place(parts, i);
    lemma_open_agrees(parts.take(n));
    lemma_tracks_listed(parts.take(n))
}

/// The tracks of the gathered GOP, ascending.
proof fn lemma_tracks_listed(parts: Seq<Part>) -> (ids: Seq<u32>)
    requires
        parts.len() > 0,
    ensures
        state_after(parts).open matches Some(g) && lists(ids, g.ticks.dom()),
        ids.len() > 0,
        state_after(parts).last == Some(ids.last()),
        made_of(state_after(parts).open->Some_0.event, ids),
    decreases parts.len(),
{
    let before = parts.drop_last();
    let p = parts.last();
    let tid = p.index.track_id;
    let st = state_after(before);
    let g = state_after(parts).open->Some_0;
    let one = seq![tid];
    if before.len() == 0 || begins_gop(st, tid) {
        assert forall|k: u32| #[trigger] one.contains(k) == g.ticks.dom().contains(k) by {
            if k == tid {
                assert(one[0] == k);
            }
        }
        lemma_made_of_more(no_gop(), seq![], p, state_after(parts).scales);
        assert(seq![].push(tid) =~= one);
        one
    } else {
        let ids = lemma_tracks_listed(before);
        let more = ids.push(tid);
        let open = st.open->Some_0;
        assert forall|i: int, j: int| 0 <= i < j < more.len() implies #[trigger] more[i]
            < #[trigger] more[j] by {
            if i < ids.len() - 1 {
                assert(ids[i] < ids[ids.len() - 1]);
            }
        }
        assert forall|k: u32| #[trigger] more.contains(k) == g.ticks.dom().contains(k) by {
            assert(ids.contains(k) == open.ticks.dom().contains(k));
            if ids.contains(k) {
                assert(more[ids.index_of(k)] == k);
            }
            if k == tid {
                assert(more[ids.len() as int] == k);
            }
            if more.contains(k) && k != tid {
                assert(ids[more.index_of(k)] == k);
            }
        }
        lemma_made_of_more(open, ids, p, state_after(parts).scales);
        more
    }
}

proof fn lemma_first_video_alike(ids: Seq<u32>, a: Seq<u32>, b: Seq<u32>)
    requires
        forall|i: int| 0 <= i < ids.len() ==> a.contains(#[trigger] ids[i]) == b.contains(ids[i]),
    ensures
        first_video(ids, a) == first_video(ids, b),
        first_video(ids, a) matches Some(t) ==> ids.contains(t),
    decreases ids.len(),
{
    if ids.len() > 0 {
        assert(ids[0] == ids[0]);
        assert forall|i: int| 0 <= i < ids.skip(1).len() implies a.contains(
            #[trigger] ids.skip(1)[i],
        ) == b.contains(ids.skip(1)[i]) by {
            assert(ids.skip(1)[i] == ids[i + 1]);
        }
        lemma_first_video_alike(ids.skip(1), a, b);
        if let Some(t) = first_video(ids.skip(1), a) {
            if !a.contains(ids[0]) {
                let i = ids.skip(1).index_of(t);
                assert(ids[i + 1] == t);
            }
        }
    }
}

proof fn lemma_longest_alike(
    ids: Seq<u32>,
    durations: Map<u32, u64>,
    a: Map<u32, u32>,
    b: Map<u32, u32>,
)
    requires
        forall|i: int|
            0 <= i < ids.len() ==> a.contains_key(#[trigger] ids[i]) == b.contains_key(ids[i])
                && a[ids[i]] == b[ids[i]],
    ensures
        longest_us(ids, durations, a) == longest_us(ids, durations, b),
    decreases ids.len(),
{
    if ids.len() > 0 {
        assert forall|i: int| 0 <= i < ids.drop_last().len() implies a.contains_key(
            #[trigger] ids.drop_last()[i],
        ) == b.contains_key(ids.drop_last()[i]) && a[ids.drop_last()[i]] == b[ids.drop_last()[i]] by {
            assert(ids.drop_last()[i] == ids[i]);
        }
        lemma_longest_alike(ids.drop_last(), durations, a, b);
        assert(ids[ids.len() - 1] == ids.last());
    }
}

/// A GOP lasts in the events as long as the segmenter says: the GOP `segmented` having
/// the same tracks with the same ticks, and the timescales and kinds of these tracks
/// being those that the segments themselves tell.
pub proof fn law_gop_lasts_as_segmented(
    parts: Seq<Part>,
    segmented: GopView,
    scales: Map<u32, u32>,
    video: Seq<u32>,
)
    requires
        parts.len() > 0,
        segmented.duration_us == playable_us(segmented.durations, scales, video),
        state_after(parts).open matches Some(g) && g.ticks == segmented.durations && forall|t: u32|
            #[trigger] g.ticks.contains_key(t) ==> {
                &&& scales.contains_key(t) && state_after(parts).scales.contains_key(t)
                &&& scales[t] == state_after(parts).scales[t]
                &&& video.contains(t) == g.video.contains(t)
            },
    ensures
        state_after(parts).open matches Some(g) && g.event.duration_us == segmented.duration_us,
{
    let ids = lemma_tracks_listed(parts);
    let st = state_after(parts);
    let g = st.open->Some_0;
    lemma_sorted(ids, g.ticks.dom());
    assert forall|i: int| 0 <= i < ids.len() implies g.ticks.contains_key(#[trigger] ids[i]) by {
        assert(ids.contains(ids[i]));
    }
    lemma_first_video_alike(ids, g.video, video);
    lemma_longest_alike(ids, g.ticks, st.scales, scales);
    if let Some(t) = first_video(ids, video) {
        assert(g.ticks.dom().contains(t));
        assert(g.ticks.contains_key(t));
    }
}

/// The segments of the tracks `ids` of `g`.
pub open spec fn tracks_in_order(g: GopEvent, ids: Seq<u32>) -> Seq<Seq<u8>> {
    ids.map_values(|t: u32| g.tracks[decimal(t as nat)])
}

/// The segments of all tracks of all of `gs`, one GOP after the other; `all` are the
/// tracks of each.
pub open spec fn unfolded(gs: Seq<GopEvent>, all: Seq<Seq<u32>>) -> Seq<Seq<u8>>
    decreases gs.len(),
{
    if gs.len() == 0 {
        seq![]
    } else {
        unfolded(gs.drop_last(), all.drop_last()) + tracks_in_order(gs.last(), all.last())
    }
}

/// Whether each of `gs` is made of the tracks that `all` has for it.
pub open spec fn all_made_of(gs: Seq<GopEvent>, all: Seq<Seq<u32>>) -> bool {
    gs.len() == all.len() && forall|i: int| 0 <= i < gs.len() ==> made_of(#[trigger] gs[i], all[i])
}

/// The bytes of the segments `parts`.
pub open spec fn part_bytes(parts: Seq<Part>) -> Seq<Seq<u8>> {
    parts.map_values(|p: Part| p.data)
}

proof fn lemma_made_of_push(gs: Seq<GopEvent>, all: Seq<Seq<u32>>, g: GopEvent, ids: Seq<u32>)
    requires
        all_made_of(gs, all),
        made_of(g, ids),
    ensures
        all_made_of(gs.push(g), all.push(ids)),
        unfolded(gs.push(g), all.push(ids)) == unfolded(gs, all) + tracks_in_order(g, ids),
{
    assert(gs.push(g).drop_last() =~= gs);
    assert(all.push(ids).drop_last() =~= all);
    assert forall|i: int| 0 <= i < gs.push(g).len() implies made_of(
        #[trigger] gs.push(g)[i],
        all.push(ids)[i],
    ) by {
        if i < gs.len() {
            assert(made_of(gs[i], all[i]));
        }
    }
}

/// One more segment of a track after all that `g` has.
proof fn lemma_order_more(g: OpenGop, ids: Seq<u32>, p: Part, scales: Map<u32, u32>)
    requires
        forall|i: int| 0 <= i < ids.len() ==> #[trigger] ids[i] < p.index.track_id,
    ensures
        tracks_in_order(gop_with(g, p, scales).event, ids.push(p.index.track_id))
            == tracks_in_order(g.event, ids).push(p.data),
{
    let tid = p.index.track_id;
    let next = gop_with(g, p, scales).event;
    let more = ids.push(tid);
    assert forall|i: int| 0 <= i < more.len() implies tracks_in_order(next, more)[i]
        == tracks_in_order(g.event, ids).push(p.data)[i] by {
        if i < ids.len() {
            assert(ids[i] < tid);
            if decimal(ids[i] as nat) == decimal(tid as nat) {
                law_decimal_injective(ids[i], tid);
            }
        }
    }
    assert(tracks_in_order(next, more) =~= tracks_in_order(g.event, ids).push(p.data));
}

/// The tracks of the GOPs so far, and of the gathered one.
proof fn lemma_in_order(parts: Seq<Part>) -> (r: (Seq<Seq<u32>>, Seq<u32>))
    requires
        parts.len() > 0,
    ensures
        state_after(parts).open matches Some(g) && made_of(g.event, r.1) && part_bytes(parts)
            == unfolded(gops_of(events_so_far(parts)), r.0) + tracks_in_order(g.event, r.1),
        all_made_of(gops_of(events_so_far(parts)), r.0),
        r.1.len() > 0,
        state_after(parts).last == Some(r.1.last()),
    decreases parts.len(),
{
    let before = parts.drop_last();
    let p = parts.last();
    let tid = p.index.track_id;
    let st = state_after(before);
    let g = state_after(parts).open->Some_0;
    let scales = state_after(parts).scales;
    let none: Seq<u32> = seq![];
    assert(part_bytes(parts) =~= part_bytes(before).push(p.data));
    if before.len() == 0 {
        assert(st.open is None);
        assert(closing_events(st) =~= seq![]);
        assert(next_events(st, p) =~= seq![]);
        assert(events_so_far(before) =~= seq![]);
        assert(events_so_far(parts) =~= seq![]);
        assert(part_bytes(before) =~= seq![]);
        lemma_made_of_more(no_gop(), none, p, scales);
        lemma_order_more(no_gop(), none, p, scales);
        assert(tracks_in_order(no_gop().event, none) =~= seq![]);
        assert(part_bytes(parts) =~= unfolded(seq![], seq![]) + tracks_in_order(
            g.event,
            none.push(tid),
        ));
        (seq![], none.push(tid))
    } else {
        let (all, ids) = lemma_in_order(before);
        let gs = gops_of(events_so_far(before));
        lemma_gops_joined(events_so_far(before), next_events(st, p));
        lemma_closing_gop(st);
        let open = st.open->Some_0;
        if begins_gop(st, tid) {
            lemma_made_of_push(gs, all, open.event, ids);
            assert(gops_of(events_so_far(parts)) =~= gs.push(open.event));
            lemma_made_of_more(no_gop(), none, p, scales);
            lemma_order_more(no_gop(), none, p, scales);
            assert(tracks_in_order(no_gop().event, none) =~= seq![]);
            let sent = unfolded(gs.push(open.event), all.push(ids));
            assert(part_bytes(parts) =~= sent + tracks_in_order(g.event, none.push(tid)));
            (all.push(ids), none.push(tid))
        } else {
            assert(gops_of(next_events(st, p)) =~= seq![]);
            assert(gops_of(events_so_far(parts)) =~= gs);
            assert forall|i: int| 0 <= i < ids.len() implies #[trigger] ids[i] < tid by {
                if i < ids.len() - 1 {
                    assert(ids[i] < ids[ids.len() - 1]);
                }
            }
            lemma_made_of_more(open, ids, p, scales);
            lemma_order_more(open, ids, p, scales);
            assert(part_bytes(parts) =~= unfolded(gs, all) + tracks_in_order(
                g.event,
                ids.push(tid),
            ));
            (all, ids.push(tid))
        }
    }
}

/// The tracks of the GOPs of an event stream, GOP by GOP and ascending in each, are
/// exactly the segments that it was made of, in their order. With `all` come the tracks
/// of each GOP.
pub proof fn law_tracks_are_the_segments(parts: Seq<Part>) -> (all: Seq<Seq<u32>>)
    ensures
        all_made_of(gops_of(all_events(parts)), all),
        unfolded(gops_of(all_events(parts)), all) == part_bytes(parts),
{
    if parts.len() == 0 {
        assert(closing_events(state_after(parts)) =~= seq![]);
        assert(all_events(parts) =~= seq![]);
        assert(part_bytes(parts) =~= seq![]);
        seq![]
    } else {
        let (all, ids) = lemma_in_order(parts);
        let st = state_after(parts);
        let g = st.open->Some_0;
        let gs = gops_of(events_so_far(parts));
        lemma_gops_joined(events_so_far(parts), closing_events(st));
        lemma_closing_gop(st);
        lemma_made_of_push(gs, all, g.event, ids);
        assert(gops_of(all_events(parts)) =~= gs.push(g.event));
        all.push(ids)
    }
}

/// The ticks of each track of one GOP, `group` being its segments.
pub open spec fn ticks_in(group: Seq<Part>) -> Map<u32, u64>
    decreases group.len(),
{
    if group.len() == 0 {
        Map::empty()
    } else {
        ticks_in(group.drop_last()).insert(group.last().index.track_id, ticks_of(group.last()))
    }
}

/// The segments of all GOPs, one GOP after the other.
pub open spec fn ungrouped(groups: Seq<Seq<Part>>) -> Seq<Part>
    decreases groups.len(),
{
    if groups.len() == 0 {
        seq![]
    } else {
        ungrouped(groups.drop_last()) + groups.last()
    }
}

/// Whether the tracks of the segments of one GOP ascend.
pub open spec fn tracks_ascend(group: Seq<Part>) -> bool {
    forall|i: int, j: int|
        0 <= i < j < group.len() ==> (#[trigger] group[i]).index.track_id < (
        #[trigger] group[j]).index.track_id
}

/// Whether `groups` are the segments of GOPs that can be told apart: each has one, its
/// tracks ascend, and it begins at or before the track that the GOP before it ends with.
pub open spec fn grouped(groups: Seq<Seq<Part>>) -> bool {
    &&& forall|i: int|
        0 <= i < groups.len() ==> (#[trigger] groups[i]).len() > 0 && tracks_ascend(groups[i])
    &&& forall|i: int|
        #![trigger groups[i]]
        0 < i < groups.len() ==> groups[i][0].index.track_id <= groups[i - 1].last().index.track_id
}

/// Whether the segment `p` tells of its own track what `scales` and `video` do, and of
/// no track another timescale.
pub open spec fn told_alike(p: Part, scales: Map<u32, u32>, video: Seq<u32>) -> bool {
    let told = track_scales(&p.catalog);
    &&& is_video(p) == video.contains(p.index.track_id)
    &&& exists|i: int| 0 <= i < told.len() && (#[trigger] told[i]).0 == p.index.track_id
    &&& forall|i: int|
        0 <= i < told.len() ==> scales.contains_key((#[trigger] told[i]).0) && scales[told[i].0]
            == told[i].1
}

/// Whether `m` says nothing else than `scales` does.
spec fn agrees_with(m: Map<u32, u32>, scales: Map<u32, u32>) -> bool {
    forall|t: u32| #[trigger] m.contains_key(t) ==> scales.contains_key(t) && scales[t] == m[t]
}

proof fn lemma_over(m: Map<u32, u32>, told: Seq<(u32, u32)>, scales: Map<u32, u32>)
    requires
        agrees_with(m, scales),
        forall|i: int|
            0 <= i < told.len() ==> scales.contains_key((#[trigger] told[i]).0) && scales[told[i].0]
                == told[i].1,
    ensures
        agrees_with(map_over(m, told), scales),
        forall|t: u32| #[trigger] m.contains_key(t) ==> map_over(m, told).contains_key(t),
        forall|i: int|
            0 <= i < told.len() ==> map_over(m, told).contains_key((#[trigger] told[i]).0),
    decreases told.len(),
{
    if told.len() > 0 {
        let less = told.drop_last();
        assert forall|i: int| 0 <= i < less.len() implies scales.contains_key(
            (#[trigger] less[i]).0,
        ) && scales[less[i].0] == less[i].1 by {
            assert(less[i] == told[i]);
        }
        lemma_over(m, less, scales);
        assert(told[told.len() - 1] == told.last());
        assert forall|i: int| 0 <= i < told.len() implies map_over(m, told).contains_key(
            (#[trigger] told[i]).0,
        ) by {
            if i < less.len() {
                assert(less[i] == told[i]);
            }
        }
    }
}

/// What holds while the GOP is gathered whose segments so far are `group`.
spec fn gathers(parts: Seq<Part>, group: Seq<Part>, scales: Map<u32, u32>, video: Seq<u32>) -> bool {
    let st = state_after(parts);
    &&& st.open matches Some(g) && {
        &&& g.ticks == ticks_in(group)
        &&& forall|t: u32| #[trigger]
            g.video.contains(t) == (g.ticks.contains_key(t) && video.contains(t))
        &&& forall|t: u32| #[trigger] g.ticks.contains_key(t) ==> st.scales.contains_key(t)
    }
    &&& agrees_with(st.scales, scales)
    &&& group.len() > 0
    &&& st.last == Some(group.last().index.track_id)
}

proof fn lemma_video_more(v: Seq<u32>, tid: u32, t: u32)
    ensures
        v.push(tid).contains(t) == (v.contains(t) || t == tid),
{
    let more = v.push(tid);
    if v.contains(t) {
        assert(more[v.index_of(t)] == t);
    }
    if t == tid {
        assert(more[v.len() as int] == t);
    }
    if more.contains(t) && t != tid {
        assert(v[more.index_of(t)] == t);
    }
}

/// One more segment of the gathered GOP, or the first of the next one.
proof fn lemma_gathers_more(
    parts: Seq<Part>,
    group: Seq<Part>,
    p: Part,
    scales: Map<u32, u32>,
    video: Seq<u32>,
)
    requires
        told_alike(p, scales, video),
        agrees_with(state_after(parts).scales, scales),
        group.len() > 0 ==> gathers(parts, group, scales, video) && group.last().index.track_id
            < p.index.track_id,
        group.len() == 0 ==> begins_gop(state_after(parts), p.index.track_id),
    ensures
        gathers(parts.push(p), group.push(p), scales, video),
        events_so_far(parts.push(p)) == if group.len() == 0 {
            all_events(parts)
        } else {
            events_so_far(parts)
        },
{
    let st = state_after(parts);
    let tid = p.index.track_id;
    let next = state_after(parts.push(p));
    assert(parts.push(p).drop_last() =~= parts);
    assert(group.push(p).drop_last() =~= group);
    lemma_over(st.scales, track_scales(&p.catalog), scales);
    let old_gop = if group.len() == 0 {
        no_gop()
    } else {
        st.open->Some_0
    };
    let g = next.open->Some_0;
    assert(g == gop_with(old_gop, p, next.scales));
    assert(old_gop.ticks =~= ticks_in(group));
    assert forall|t: u32| #[trigger] g.video.contains(t) == (g.ticks.contains_key(t)
        && video.contains(t)) by {
        lemma_video_more(old_gop.video, tid, t);
        assert(old_gop.video.contains(t) == (old_gop.ticks.contains_key(t) && video.contains(t)));
    }
    assert forall|t: u32| #[trigger] g.ticks.contains_key(t) implies next.scales.contains_key(t) by {
        if t == tid {
            let told = track_scales(&p.catalog);
            let i = choose|i: int| 0 <= i < told.len() && (#[trigger] told[i]).0 == tid;
            assert(next.scales.contains_key(told[i].0));
        } else {
            assert(old_gop.ticks.contains_key(t));
            assert(st.scales.contains_key(t));
        }
    }
    if group.len() > 0 {
        assert(events_so_far(parts) + Seq::<PlannedView>::empty() =~= events_so_far(parts));
    }
}

/// A whole GOP behind `parts`.
proof fn lemma_gathers_group(
    parts: Seq<Part>,
    group: Seq<Part>,
    n: int,
    scales: Map<u32, u32>,
    video: Seq<u32>,
)
    requires
        0 < n <= group.len(),
        tracks_ascend(group),
        forall|i: int| 0 <= i < group.len() ==> told_alike(#[trigger] group[i], scales, video),
        agrees_with(state_after(parts).scales, scales),
        begins_gop(state_after(parts), group[0].index.track_id),
    ensures
        gathers(parts + group.take(n), group.take(n), scales, video),
        events_so_far(parts + group.take(n)) == all_events(parts),
    decreases n,
{
    let less = group.take(n - 1);
    let p = group[n - 1];
    assert(told_alike(p, scales, video));
    assert(group.take(n) =~= less.push(p));
    assert(parts + group.take(n) =~= (parts + less).push(p));
    if n == 1 {
        assert(parts + less =~= parts);
        lemma_gathers_more(parts, less, p, scales, video);
    } else {
        lemma_gathers_group(parts, group, n - 1, scales, video);
        assert(group[n - 2].index.track_id < group[n - 1].index.track_id);
        lemma_gathers_more(parts + less, less, p, scales, video);
    }
}

proof fn lemma_grouped_less(groups: Seq<Seq<Part>>)
    requires
        grouped(groups),
        groups.len() > 0,
    ensures
        grouped(groups.drop_last()),
{
    let less = groups.drop_last();
    assert forall|i: int| 0 <= i < less.len() implies (#[trigger] less[i]).len() > 0
        && tracks_ascend(less[i]) by {
        assert(less[i] == groups[i]);
    }
    assert forall|i: int|
        #![trigger less[i]]
        0 < i < less.len() implies less[i][0].index.track_id <= less[i - 1].last().index.track_id by {
        assert(less[i] == groups[i]);
        assert(less[i - 1] == groups[i - 1]);
    }
}

/// The GOPs of a stored stream last as long as the segmenter said: there are as many of
/// them as it cut, and each has the duration that it gave, the segments of each GOP
/// having the ticks of its tracks and telling the timescales and kinds of these tracks
/// that it went by.
pub proof fn law_stream_lasts_as_segmented(
    groups: Seq<Seq<Part>>,
    segmented: Seq<GopView>,
    scales: Map<u32, u32>,
    video: Seq<u32>,
)
    requires
        grouped(groups),
        groups.len() == segmented.len(),
        forall|i: int|
            0 <= i < groups.len() ==> (#[trigger] segmented[i]).durations == ticks_in(groups[i])
                && segmented[i].duration_us == playable_us(segmented[i].durations, scales, video),
        forall|i: int, j: int|
            0 <= i < groups.len() && 0 <= j < groups[i].len() ==> told_alike(
                #[trigger] groups[i][j],
                scales,
                video,
            ),
    ensures
        gops_of(all_events(ungrouped(groups))).len() == segmented.len(),
        forall|i: int|
            0 <= i < segmented.len() ==> gops_of(all_events(ungrouped(groups)))[i].duration_us == (
            #[trigger] segmented[i]).duration_us,
{
    lemma_stream_lasts(groups, segmented, scales, video);
}

proof fn lemma_stream_lasts(
    groups: Seq<Seq<Part>>,
    segmented: Seq<GopView>,
    scales: Map<u32, u32>,
    video: Seq<u32>,
)
    requires
        grouped(groups),
        groups.len() == segmented.len(),
        forall|i: int|
            0 <= i < groups.len() ==> (#[trigger] segmented[i]).durations == ticks_in(groups[i])
                && segmented[i].duration_us == playable_us(segmented[i].durations, scales, video),
        forall|i: int, j: int|
            0 <= i < groups.len() && 0 <= j < groups[i].len() ==> told_alike(
                #[trigger] groups[i][j],
                scales,
                video,
            ),
    ensures
        gops_of(all_events(ungrouped(groups))).len() == segmented.len(),
        forall|i: int|
            0 <= i < segmented.len() ==> gops_of(all_events(ungrouped(groups)))[i].duration_us == (
            #[trigger] segmented[i]).duration_us,
        groups.len() > 0 ==> gathers(ungrouped(groups), groups.last(), scales, video),
    decreases groups.len(),
{
    let all = ungrouped(groups);
    if groups.len() == 0 {
        assert(closing_events(state_after(all)) =~= seq![]);
        assert(all_events(all) =~= seq![]);
    } else {
        let n = groups.len() - 1;
        let less = groups.drop_last();
        let before = ungrouped(less);
        let group = groups.last();
        let gops = segmented.drop_last();
        lemma_grouped_less(groups);
        assert forall|i: int| 0 <= i < less.len() implies (#[trigger] gops[i]).durations == ticks_in(
            less[i],
        ) && gops[i].duration_us == playable_us(gops[i].durations, scales, video) by {
            assert(gops[i] == segmented[i]);
            assert(less[i] == groups[i]);
        }
        assert forall|i: int, j: int| 0 <= i < less.len() && 0 <= j < less[i].len() implies told_alike(
            #[trigger] less[i][j],
            scales,
            video,
        ) by {
            assert(less[i][j] == groups[i][j]);
        }
        lemma_stream_lasts(less, gops, scales, video);
        assert(group == groups[n]);
        assert forall|i: int| 0 <= i < group.len() implies told_alike(
            #[trigger] group[i],
            scales,
            video,
        ) by {
            assert(groups[n][i] == group[i]);
        }
        if n > 0 {
            assert(less.last() == groups[n - 1]);
        }
        lemma_gathers_group(before, group, group.len() as int, scales, video);
        assert(group.take(group.len() as int) =~= group);
        lemma_gops_joined(events_so_far(all), closing_events(state_after(all)));
        lemma_closing_gop(state_after(all));
        let g = state_after(all).open->Some_0;
        assert(gops_of(all_events(all)) =~= gops_of(all_events(before)).push(g.event));
        assert(segmented[n].durations == ticks_in(groups[n]));
        assert forall|t: u32| #[trigger] g.ticks.contains_key(t) implies scales.contains_key(t)
            && state_after(all).scales.contains_key(t) && scales[t] == state_after(all).scales[t]
            && video.contains(t) == g.video.contains(t) by {
            assert(state_after(all).scales.contains_key(t));
        }
        law_gop_lasts_as_segmented(all, segmented[n], scales, video);
        assert forall|i: int| 0 <= i < segmented.len() implies gops_of(
            all_events(all),
        )[i].duration_us == (#[trigger] segmented[i]).duration_us by {
            if i < n {
                assert(gops[i] == segmented[i]);
            }
        }
    }
}

} // verus!
