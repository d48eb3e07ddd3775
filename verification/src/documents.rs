//! What the documents, events and tables about segments say of them.

use vstd::prelude::*;

use crate::catalog::Catalog;
use crate::cbor::{gop_event, law_by_text_lookup};
use crate::error::Error;
use crate::events::total_ticks;
use crate::hls::{BlobSegment, BlobTrackView, TrackEntry};
use crate::json::{find_from, json_number, member, put, JsonView, MemberView};
use crate::metadata::{metadata_json, segment_json, track_json, tracks_json};
use crate::metafile::{is_metafile, MetafileView};
use crate::moof::indexed;
use crate::present::{
    gop_metas, index_all, opens_gop, regrouped, Indexed, MetaView,
};
use crate::segment::{sat64, GopView};
use crate::text::decimal;
use crate::verify::{judged, leaf_key_text, Checked};

verus! {

/// How often a track id is not above the one before it, up to item `i`.
pub open spec fn falls(items: Seq<Indexed>, i: int) -> nat
    decreases i,
{
    if i <= 0 {
        0
    } else if items[i].index.track_id <= items[i - 1].index.track_id {
        falls(items, i - 1) + 1
    } else {
        falls(items, i - 1)
    }
}

/// Whether the GOPs `ms` have item `i` where it belongs: its size and its samples under its
/// track, and its decode time where it is in the first GOP.
pub open spec fn is_placed(ms: Seq<MetaView>, items: Seq<Indexed>, i: int) -> bool {
    let k = falls(items, i) as int;
    let t = items[i].index.track_id;
    &&& k < ms.len()
    &&& ms[k].sizes.contains_key(t) && ms[k].sizes[t] == items[i].size
    &&& ms[k].samples.contains_key(t) && ms[k].samples[t] == items[i].index.samples
    &&& ms[k].first.contains_key(t) == (k == 0)
    &&& k == 0 ==> ms[k].first[t] == items[i].index.first->Some_0
}

/// Whether some item of the GOP `k` is of the track `t`.
pub open spec fn has_item(items: Seq<Indexed>, k: int, t: u32) -> bool {
    exists|i: int|
        0 <= i < items.len() && falls(items, i) == k && (#[trigger] items[i]).index.track_id == t
}

proof fn lemma_falls_alike(items: Seq<Indexed>, n: int, i: int)
    requires
        0 <= i < n <= items.len(),
    ensures
        falls(items.take(n), i) == falls(items, i),
    decreases i,
{
    if i > 0 {
        lemma_falls_alike(items, n, i - 1);
    }
}

proof fn lemma_rising(items: Seq<Indexed>, i: int, j: int)
    requires
        0 <= i < j < items.len(),
    ensures
        falls(items, i) <= falls(items, j),
        falls(items, i) == falls(items, j) ==> items[i].index.track_id < items[j].index.track_id,
    decreases j,
{
    if i < j - 1 {
        lemma_rising(items, i, j - 1);
    }
}

proof fn lemma_regrouped(items: Seq<Indexed>)
    ensures
        regrouped(items).len() == if items.len() == 0 {
            0
        } else {
            falls(items, items.len() - 1) + 1
        },
        forall|i: int| 0 <= i < items.len() ==> #[trigger] is_placed(regrouped(items), items, i),
        forall|k: int, t: u32|
            0 <= k < regrouped(items).len() && #[trigger] regrouped(items)[k].sizes.contains_key(t)
                ==> has_item(items, k, t),
        forall|k: int, t: u32|
            0 <= k < regrouped(items).len() && #[trigger] regrouped(items)[k].first.contains_key(t)
                ==> regrouped(items)[k].sizes.contains_key(t),
    decreases items.len(),
{
    if items.len() > 0 {
        let n = items.len() - 1;
        let rest = items.drop_last();
        assert(rest =~= items.take(n));
        let ms = regrouped(items);
        let before = regrouped(rest);
        let t = items.last().index.track_id;
        lemma_regrouped(rest);
        assert forall|i: int| 0 <= i < n implies #[trigger] falls(rest, i) == falls(items, i) by {
            lemma_falls_alike(items, n, i);
        }
        if n > 0 {
            assert(falls(rest, n - 1) == falls(items, n - 1));
        }
        assert(opens_gop(items) == (n == 0 || falls(items, n) == falls(items, n - 1) + 1));
        let g = falls(items, n) as int;
        assert(ms.len() == g + 1);
        assert forall|i: int| 0 <= i < items.len() implies #[trigger] is_placed(ms, items, i) by {
            if i < n {
                lemma_rising(items, i, n);
                assert(is_placed(before, rest, i));
                assert(falls(rest, i) == falls(items, i));
                assert(rest[i] == items[i]);
                let k = falls(items, i) as int;
                if k == g {
                    assert(items[i].index.track_id != t);
                } else {
                    assert(ms[k] == before[k]);
                }
            } else {
                if !opens_gop(items) && g == 0 {
                    if before[0].first.contains_key(t) {
                        assert(before[0].sizes.contains_key(t));
                        assert(has_item(rest, 0, t));
                        let j = choose|j: int|
                            0 <= j < rest.len() && falls(rest, j) == 0 && (
                            #[trigger] rest[j]).index.track_id == t;
                        assert(falls(rest, j) == falls(items, j));
                        lemma_rising(items, j, n);
                        assert(items[j] == rest[j]);
                    }
                }
                if !opens_gop(items) && g > 0 {
                    if before[g].first.contains_key(t) {
                        assert(before[g].sizes.contains_key(t));
                        assert(has_item(rest, g, t));
                        let j = choose|j: int|
                            0 <= j < rest.len() && falls(rest, j) == g && (
                            #[trigger] rest[j]).index.track_id == t;
                        assert(falls(rest, j) == falls(items, j));
                        lemma_rising(items, j, n);
                        assert(items[j] == rest[j]);
                    }
                }
            }
        }
        assert forall|k: int, u: u32|
            0 <= k < ms.len() && #[trigger] ms[k].sizes.contains_key(u) implies has_item(
            items,
            k,
            u,
        ) by {
            if k == g && u == t {
                assert(items[n].index.track_id == t);
            } else {
                assert(before[k].sizes.contains_key(u));
                assert(has_item(rest, k, u));
                let j = choose|j: int|
                    0 <= j < rest.len() && falls(rest, j) == k && (
                    #[trigger] rest[j]).index.track_id == u;
                assert(falls(rest, j) == falls(items, j));
                assert(items[j] == rest[j]);
            }
        }
        assert forall|k: int, u: u32|
            0 <= k < ms.len() && #[trigger] ms[k].first.contains_key(u) implies ms[k].sizes.contains_key(
            u,
        ) by {
            if k == g && u == t {
            } else {
                assert(before[k].first.contains_key(u));
            }
        }
    }
}

/// Regrouping begins a GOP wherever a track id is not above the one before it. Every segment
/// is in the GOP that it falls in, under its track, with its size and its samples. Decode
/// times stand in the first GOP alone. No GOP has a track without a segment.
pub proof fn law_regrouping_places_every_segment(items: Seq<Indexed>, i: int, k: int, t: u32)
    requires
        0 <= i < items.len(),
    ensures
        is_placed(regrouped(items), items, i),
        regrouped(items).len() == falls(items, items.len() - 1) + 1,
        0 <= k < regrouped(items).len() && regrouped(items)[k].sizes.contains_key(t) ==> has_item(
            items,
            k,
            t,
        ),
{
    lemma_regrouped(items);
}

/// Indexing the segments gives for each its own index and size, in their order. It fails
/// only where the index of a segment does, with the message of the first.
pub proof fn law_each_segment_is_indexed(segs: Seq<Seq<u8>>)
    ensures
        match index_all(segs) {
            Ok(items) => items.len() == segs.len() && forall|i: int|
                0 <= i < segs.len() ==> indexed(#[trigger] segs[i]) == Ok::<_, Seq<char>>(
                    items[i].index,
                ) && items[i].size == segs[i].len() as u64,
            Err(e) => exists|i: int|
                0 <= i < segs.len() && indexed(#[trigger] segs[i]) == Err::<
                    crate::moof::IndexView,
                    Seq<char>,
                >(e) && forall|j: int| 0 <= j < i ==> indexed(#[trigger] segs[j]) is Ok,
        },
    decreases segs.len(),
{
    if segs.len() > 0 {
        let rest = segs.drop_last();
        law_each_segment_is_indexed(rest);
        assert forall|i: int| 0 <= i < rest.len() implies #[trigger] segs[i] == rest[i] by {}
        match index_all(rest) {
            Ok(before) => {
                assert forall|i: int| 0 <= i < rest.len() implies indexed(#[trigger] segs[i])
                    == Ok::<_, Seq<char>>(before[i].index) && before[i].size == segs[i].len() as u64 by {
                    assert(indexed(rest[i]) == Ok::<_, Seq<char>>(before[i].index));
                }
                assert(segs[segs.len() - 1] == segs.last());
            },
            Err(e) => {
                let i = choose|i: int|
                    0 <= i < rest.len() && indexed(#[trigger] rest[i]) == Err::<
                        crate::moof::IndexView,
                        Seq<char>,
                    >(e) && forall|j: int| 0 <= j < i ==> indexed(#[trigger] rest[j]) is Ok;
                assert(indexed(segs[i]) == indexed(rest[i]));
                assert forall|j: int| 0 <= j < i implies indexed(#[trigger] segs[j]) is Ok by {
                    assert(indexed(rest[j]) is Ok);
                }
            },
        }
    }
}

/// A metafile says of its segment, under the decimal id of its track and nothing else, what
/// the index does: the samples, their number and their ticks, and the first decode time. The
/// size is that of the segment, and so is what it adds to the body.
pub proof fn law_metafile_is_the_index<D: Fn(&[u8]) -> Result<Catalog, Error>>(
    decode: D,
    data: Seq<u8>,
    m: MetafileView,
)
    requires
        is_metafile(decode, data, m),
        data.len() <= u64::MAX,
    ensures
        indexed(data) is Ok,
        ({
            let x = indexed(data)->Ok_0;
            let key = decimal(x.track_id as nat);
            &&& forall|k: Seq<char>| #[trigger] m.samples.contains_key(k) == (k == key)
            &&& m.samples[key] == x.samples
            &&& m.track_byte_sizes.contains_key(key) && m.track_byte_sizes[key] == data.len()
            &&& m.sample_counts.contains_key(key) && m.sample_counts[key]
                == x.samples.durations.len() as u32
            &&& m.durations.contains_key(key) && m.durations[key] == sat64(
                total_ticks(x.samples.durations),
            )
            &&& m.first_decode_times.contains_key(key) && Some(m.first_decode_times[key])
                == Some(x.first->Some_0)
            &&& m.body_size == data.len()
        }),
{
}

/// How many ticks samples last together is the sum over any two parts of them, and one
/// sample lasts as long as it does.
pub proof fn law_ticks_add_up(a: Seq<u32>, b: Seq<u32>, d: u32)
    ensures
        total_ticks(a + b) == total_ticks(a) + total_ticks(b),
        total_ticks(seq![d]) == d,
    decreases b.len(),
{
    assert(seq![d].drop_last() =~= seq![]);
    assert(total_ticks(seq![]) == 0);
    if b.len() == 0 {
        assert(a + b =~= a);
    } else {
        law_ticks_add_up(a, b.drop_last(), d);
        assert((a + b).drop_last() =~= a + b.drop_last());
        assert((a + b).last() == b.last());
    }
}

/// The event of a GOP has under the decimal id of each track what the GOP has of it, and
/// has nothing of other tracks.
pub proof fn law_event_is_the_gop(g: GopView, t: u32)
    ensures
        ({
            let e = gop_event(g);
            let key = decimal(t as nat);
            &&& e.tracks.contains_key(key) == g.tracks.contains_key(t)
            &&& g.tracks.contains_key(t) ==> e.tracks[key] == g.tracks[t]
            &&& e.track_byte_sizes.contains_key(key) == g.tracks.contains_key(t)
            &&& g.tracks.contains_key(t) && g.tracks[t].len() <= u64::MAX
                ==> e.track_byte_sizes[key] == e.tracks[key].len()
            &&& e.durations.contains_key(key) == g.durations.contains_key(t)
            &&& g.durations.contains_key(t) ==> e.durations[key] == g.durations[t]
            &&& e.sample_counts.contains_key(key) == g.sample_counts.contains_key(t)
            &&& g.sample_counts.contains_key(t) ==> e.sample_counts[key] == g.sample_counts[t]
            &&& e.samples.contains_key(key) == g.samples.contains_key(t)
            &&& g.samples.contains_key(t) ==> e.samples[key] == g.samples[t]
            &&& e.first_decode_times.contains_key(key) == g.first_decode_times.contains_key(t)
            &&& g.first_decode_times.contains_key(t) ==> e.first_decode_times[key]
                == g.first_decode_times[t]
            &&& e.body_size == g.body_size
            &&& e.duration_us == g.duration_us
        }),
{
    law_by_text_lookup(g.tracks, t);
    law_by_text_lookup(g.durations, t);
    law_by_text_lookup(g.sample_counts, t);
    law_by_text_lookup(g.samples, t);
    law_by_text_lookup(g.first_decode_times, t);
    let sizes = g.tracks.map_values(|b: Seq<u8>| b.len() as u64);
    law_by_text_lookup(sizes, t);
    assert(sizes.contains_key(t) == g.tracks.contains_key(t));
}

/// What the header of a flat MP4 is told of GOPs: of each track how many bytes it has and
/// the table of its samples. Decode times are told of the first GOP alone.
pub proof fn law_header_is_told_the_gops(
    gops: Seq<GopView>,
    first: Map<u32, u64>,
    i: int,
    t: u32,
)
    requires
        0 <= i < gops.len(),
        gops[i].tracks.contains_key(t),
        gops[i].samples.contains_key(t),
        gops[i].tracks[t].len() <= u64::MAX,
    ensures
        gop_metas(gops, first).len() == gops.len(),
        gop_metas(gops, first)[i].sizes.contains_key(t),
        gop_metas(gops, first)[i].sizes[t] == gops[i].tracks[t].len(),
        gop_metas(gops, first)[i].samples.contains_key(t),
        gop_metas(gops, first)[i].samples[t] == gops[i].samples[t],
        gop_metas(gops, first)[i].first == if i == 0 {
            first
        } else {
            Map::<u32, u64>::empty()
        },
{
}

/// A number as it stands in a document.
pub open spec fn figure(n: nat) -> JsonView {
    JsonView::Number(json_number(n as u64))
}

/// A document says of a segment at which offset it lies, how many bytes it has, how long it
/// lasts and how many samples it has.
pub proof fn law_document_tells_the_segment(s: BlobSegment)
    ensures
        member(segment_json(s), "offset"@) == Some(figure(s.offset as nat)),
        member(segment_json(s), "size"@) == Some(figure(s.size as nat)),
        member(segment_json(s), "durationTicks"@) == Some(figure(s.duration_ticks as nat)),
        member(segment_json(s), "sampleCount"@) == Some(figure(s.sample_count as nat)),
{
    reveal_strlit("offset");
    reveal_strlit("size");
    reveal_strlit("durationTicks");
    reveal_strlit("sampleCount");
    let ms = segment_json(s)->Object_0;
    assert("offset"@.len() == 6 && "size"@.len() == 4 && "durationTicks"@.len() == 13
        && "sampleCount"@.len() == 11);
    lemma_found(ms, "offset"@, 0);
    lemma_found(ms, "size"@, 1);
    lemma_found(ms, "durationTicks"@, 2);
    lemma_found(ms, "sampleCount"@, 3);
}

proof fn lemma_found_from(ms: Seq<MemberView>, key: Seq<char>, i: int, k: int)
    requires
        0 <= i <= k < ms.len(),
        ms[k].key == key,
        forall|j: int| 0 <= j < k ==> (#[trigger] ms[j]).key != key,
    ensures
        find_from(ms, key, i) == Some(k),
    decreases k - i,
{
    if i < k {
        assert(ms[i].key != key);
        lemma_found_from(ms, key, i + 1, k);
    }
}

proof fn lemma_found(ms: Seq<MemberView>, key: Seq<char>, k: int)
    requires
        0 <= k < ms.len(),
        ms[k].key == key,
        forall|j: int| 0 <= j < k ==> (#[trigger] ms[j]).key != key,
    ensures
        member(JsonView::Object(ms), key) == Some(ms[k].value),
{
    lemma_found_from(ms, key, 0, k);
}

/// A document says of a track its type and codec, its timescale, which init segment and
/// which flat MP4 it is in, and its segments in order. Of a video track it has the width and
/// the height, of any other the channels and the sample rate.
pub proof fn law_document_tells_the_track(t: BlobTrackView, i: int)
    ensures
        ({
            let j = track_json(t);
            &&& member(j, "type"@) == Some(JsonView::Text(t.track_type))
            &&& member(j, "codec"@) == Some(JsonView::Text(t.codec))
            &&& member(j, "timescale"@) == Some(figure(t.timescale as nat))
            &&& member(j, "initCid"@) == Some(JsonView::Text(t.init_cid))
            &&& member(j, "blobCid"@) == Some(JsonView::Text(t.blob_cid))
            &&& member(j, "blobSize"@) == Some(figure(t.blob_size as nat))
            &&& member(j, "segments"@) matches Some(JsonView::List(list)) && list.len()
                == t.segments.len() && (0 <= i < t.segments.len() ==> list[i] == segment_json(
                t.segments[i],
            ))
            &&& t.track_type == "video"@ ==> {
                &&& member(j, "width"@) == Some(figure(t.width as nat))
                &&& member(j, "height"@) == Some(figure(t.height as nat))
            }
            &&& t.track_type != "video"@ ==> {
                &&& member(j, "channels"@) == Some(figure(t.channels as nat))
                &&& member(j, "sampleRate"@) == Some(figure(t.sample_rate as nat))
            }
        }),
{
    lemma_track_keys_differ();
    let ms = track_json(t)->Object_0;
    assert(ms.len() == 9);
    lemma_found(ms, "type"@, 0);
    lemma_found(ms, "codec"@, 1);
    lemma_found(ms, "timescale"@, 2);
    lemma_found(ms, "initCid"@, 3);
    lemma_found(ms, "blobCid"@, 4);
    lemma_found(ms, "blobSize"@, 5);
    lemma_found(ms, "segments"@, 6);
    if t.track_type == "video"@ {
        lemma_found(ms, "width"@, 7);
        lemma_found(ms, "height"@, 8);
    } else {
        lemma_found(ms, "channels"@, 7);
        lemma_found(ms, "sampleRate"@, 8);
    }
}

/// Two texts that begin differently differ.
spec fn begins(s: Seq<char>, c: char, n: nat) -> bool {
    s.len() == n && s[0] == c
}

proof fn lemma_track_keys_differ()
    ensures
        begins("type"@, 't', 4),
        begins("codec"@, 'c', 5),
        begins("timescale"@, 't', 9),
        begins("initCid"@, 'i', 7),
        begins("blobCid"@, 'b', 7),
        begins("blobSize"@, 'b', 8),
        begins("segments"@, 's', 8),
        begins("width"@, 'w', 5),
        begins("height"@, 'h', 6),
        begins("channels"@, 'c', 8),
        begins("sampleRate"@, 's', 10),
        begins("tracks"@, 't', 6),
{
    reveal_strlit("type");
    reveal_strlit("codec");
    reveal_strlit("timescale");
    reveal_strlit("initCid");
    reveal_strlit("blobCid");
    reveal_strlit("blobSize");
    reveal_strlit("segments");
    reveal_strlit("width");
    reveal_strlit("height");
    reveal_strlit("channels");
    reveal_strlit("sampleRate");
    reveal_strlit("tracks");
}

proof fn lemma_find(ms: Seq<MemberView>, key: Seq<char>, i: int)
    requires
        0 <= i <= ms.len(),
    ensures
        match find_from(ms, key, i) {
            Some(k) => i <= k < ms.len() && ms[k].key == key && forall|j: int|
                i <= j < k ==> (#[trigger] ms[j]).key != key,
            None => forall|j: int| i <= j < ms.len() ==> (#[trigger] ms[j]).key != key,
        },
    decreases ms.len() - i,
{
    if i < ms.len() && ms[i].key != key {
        lemma_find(ms, key, i + 1);
    }
}

/// What is put under a key is found there, and all other keys keep what they have.
pub proof fn law_put_is_found(
    ms: Seq<MemberView>,
    key: Seq<char>,
    value: JsonView,
    other: Seq<char>,
)
    ensures
        member(JsonView::Object(put(ms, key, value)), key) == Some(value),
        other != key ==> member(JsonView::Object(put(ms, key, value)), other) == member(
            JsonView::Object(ms),
            other,
        ),
{
    let after = put(ms, key, value);
    lemma_find(ms, key, 0);
    lemma_find(ms, other, 0);
    let at: int = match find_from(ms, key, 0) {
        Some(k) => k,
        None => ms.len() as int,
    };
    assert forall|j: int| 0 <= j < at implies (#[trigger] after[j]).key != key by {
        assert(ms[j].key != key);
    }
    lemma_found(after, key, at);
    if other != key {
        match find_from(ms, other, 0) {
            Some(k) => {
                assert forall|j: int| 0 <= j < k implies (#[trigger] after[j]).key != other by {
                    assert(ms[j].key != other);
                }
                assert(after[k] == ms[k]);
                lemma_found(after, other, k);
            },
            None => {
                lemma_find(after, other, 0);
                if let Some(k) = find_from(after, other, 0) {
                    if k < ms.len() {
                        assert(ms[k].key != other);
                    }
                }
            },
        }
    }
}

/// The document of a presentation names the primary flat MP4 and has every track under its
/// key. Where several have one key, the last of them is there.
pub proof fn law_document_has_every_track(
    cid: Seq<char>,
    size: u64,
    es: Seq<TrackEntry>,
    i: int,
)
    requires
        0 <= i < es.len(),
        forall|j: int| i < j < es.len() ==> (#[trigger] es[j]).key@ != es[i].key@,
    ensures
        ({
            let j = metadata_json(cid, size, es);
            &&& member(j, "blobCid"@) == Some(JsonView::Text(cid))
            &&& member(j, "blobSize"@) == Some(figure(size as nat))
            &&& member(j, "tracks"@) matches Some(tracks) && member(tracks, es[i].key@) == Some(
                track_json(es[i].track@),
            )
        }),
{
    lemma_track_keys_differ();
    let ms = metadata_json(cid, size, es)->Object_0;
    lemma_found(ms, "blobCid"@, 0);
    lemma_found(ms, "blobSize"@, 1);
    lemma_found(ms, "tracks"@, 2);
    lemma_track_is_put(es, i);
}

proof fn lemma_track_is_put(es: Seq<TrackEntry>, i: int)
    requires
        0 <= i < es.len(),
        forall|j: int| i < j < es.len() ==> (#[trigger] es[j]).key@ != es[i].key@,
    ensures
        member(JsonView::Object(tracks_json(es)), es[i].key@) == Some(track_json(es[i].track@)),
    decreases es.len(),
{
    let rest = es.drop_last();
    law_put_is_found(
        tracks_json(rest),
        es.last().key@,
        track_json(es.last().track@),
        es[i].key@,
    );
    if i < es.len() - 1 {
        assert(es[es.len() - 1] == es.last());
        assert forall|j: int| i < j < rest.len() implies (#[trigger] rest[j]).key@
            != rest[i].key@ by {
            assert(rest[j] == es[j]);
        }
        assert(rest[i] == es[i]);
        lemma_track_is_put(rest, i);
    }
}

/// A verdict on a segment names its track and has the manifest, the certificates, the key
/// of the signer, and the results and the state of the validation, each under its key.
/// Without a manifest, or without certificates, there is none.
pub proof fn law_verdict_tells_what_was_checked(tid: u32, c: Checked)
    ensures
        match judged(tid, c) {
            Err(_) => c.manifest is None || c.manifest->Some_0.cert_chain is None,
            Ok(j) => c.manifest matches Some(m) && m.cert_chain matches Some(chain) && {
                &&& member(j, "track_id"@) == Some(figure(tid as nat))
                &&& member(j, "manifest"@) == Some(m.manifest@)
                &&& member(j, "cert"@) == Some(JsonView::Text(chain@))
                &&& member(j, "signer_pubkey"@) == Some(
                    match leaf_key_text(chain@) {
                        Some(k) => JsonView::Text(k),
                        None => JsonView::Null,
                    },
                )
                &&& member(j, "validation_results"@) == Some(c.validation_results@)
                &&& member(j, "validation_state"@) == Some(c.validation_state@)
            },
        },
{
    reveal_strlit("track_id");
    reveal_strlit("manifest");
    reveal_strlit("cert");
    reveal_strlit("signer_pubkey");
    reveal_strlit("validation_results");
    reveal_strlit("validation_state");
    if judged(tid, c) is Ok {
        let ms = judged(tid, c)->Ok_0->Object_0;
        assert(begins("track_id"@, 't', 8) && begins("manifest"@, 'm', 8) && begins(
            "cert"@,
            'c',
            4,
        ) && begins("signer_pubkey"@, 's', 13) && begins("validation_results"@, 'v', 18)
            && begins("validation_state"@, 'v', 16));
        lemma_found(ms, "track_id"@, 0);
        lemma_found(ms, "manifest"@, 1);
        lemma_found(ms, "cert"@, 2);
        lemma_found(ms, "signer_pubkey"@, 3);
        lemma_found(ms, "validation_results"@, 4);
        lemma_found(ms, "validation_state"@, 5);
    }
}

} // verus!
