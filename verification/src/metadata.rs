//! The document about the blobs of an HLS presentation.

use vstd::prelude::*;

use crate::hls::{BlobSegment, BlobTrack, BlobTrackView, PrimaryBlob, TrackEntry};
use crate::json::{
    json_number, lemma_list_view, lemma_object_view, members_view, number_of, pretty_json,
    push_member, put, put_member, values_view, write_pretty, Json, JsonView, Member, MemberView,
};
use crate::text::same_text;

verus! {

/// The member `key` with a text.
pub open spec fn text_member(key: Seq<char>, text: Seq<char>) -> MemberView {
    MemberView { key, value: JsonView::Text(text) }
}

/// The member `key` with a number.
pub open spec fn number_member(key: Seq<char>, n: u64) -> MemberView {
    MemberView { key, value: JsonView::Number(json_number(n)) }
}

fn push_text(ms: &mut Vec<Member>, key: &str, text: &String)
    ensures
        members_view(final(ms)@) == members_view(old(ms)@).push(text_member(key@, text@)),
{
    push_member(ms, key, Json::Text(text.clone()));
}

fn push_number(ms: &mut Vec<Member>, key: &str, n: u64)
    ensures
        members_view(final(ms)@) == members_view(old(ms)@).push(number_member(key@, n)),
{
    push_member(ms, key, Json::Number(number_of(n)));
}

/// What is said of a segment.
pub open spec fn segment_json(s: BlobSegment) -> JsonView {
    JsonView::Object(
        seq![
            number_member("offset"@, s.offset),
            number_member("size"@, s.size),
            number_member("durationTicks"@, s.duration_ticks),
            number_member("sampleCount"@, s.sample_count as u64),
        ],
    )
}

fn describe_segment(s: &BlobSegment) -> (r: Json)
    ensures
        r@ == segment_json(*s),
{
    let mut ms: Vec<Member> = Vec::new();
    assert(members_view(ms@) =~= seq![]);
    push_number(&mut ms, "offset", s.offset);
    push_number(&mut ms, "size", s.size);
    push_number(&mut ms, "durationTicks", s.duration_ticks);
    push_number(&mut ms, "sampleCount", s.sample_count as u64);
    proof {
        lemma_object_view(ms);
        assert(members_view(ms@) =~= segment_json(*s)->Object_0);
    }
    Json::Object(ms)
}

/// What is said of the segments of a track.
pub open spec fn segments_json(ss: Seq<BlobSegment>) -> JsonView {
    JsonView::List(ss.map_values(|s: BlobSegment| segment_json(s)))
}

fn describe_segments(ss: &Vec<BlobSegment>) -> (r: Json)
    ensures
        r@ == segments_json(ss@),
{
    let mut list: Vec<Json> = Vec::new();
    let ghost want = ss@.map_values(|s: BlobSegment| segment_json(s));
    let mut i: usize = 0;
    assert(values_view(list@) =~= want.take(0));
    while i < ss.len()
        invariant
            i <= ss@.len(),
            want == ss@.map_values(|s: BlobSegment| segment_json(s)),
            values_view(list@) == want.take(i as int),
        decreases ss@.len() - i,
    {
        let ghost sofar = values_view(list@);
        let described = describe_segment(&ss[i]);
        list.push(described);
        assert(values_view(list@) =~= sofar.push(described@));
        assert(want[i as int] == segment_json(ss@[i as int]));
        assert(want.take(i + 1) =~= want.take(i as int).push(want[i as int]));
        i += 1;
    }
    proof {
        lemma_list_view(list);
        assert(want.take(i as int) =~= want);
    }
    Json::List(list)
}

/// What is said of a track: its size in pixels where it is a video track, its
/// channels and sample rate where it is none.
pub open spec fn track_json(t: BlobTrackView) -> JsonView {
    let common = seq![
        text_member("type"@, t.track_type),
        text_member("codec"@, t.codec),
        number_member("timescale"@, t.timescale as u64),
        text_member("initCid"@, t.init_cid),
        text_member("blobCid"@, t.blob_cid),
        number_member("blobSize"@, t.blob_size),
        MemberView { key: "segments"@, value: segments_json(t.segments) },
    ];
    JsonView::Object(
        if t.track_type == "video"@ {
            common + seq![
                number_member("width"@, t.width as u64),
                number_member("height"@, t.height as u64),
            ]
        } else {
            common + seq![
                number_member("channels"@, t.channels as u64),
                number_member("sampleRate"@, t.sample_rate as u64),
            ]
        },
    )
}

fn describe_track(t: &BlobTrack) -> (r: Json)
    ensures
        r@ == track_json(t@),
{
    let mut ms: Vec<Member> = Vec::new();
    assert(members_view(ms@) =~= seq![]);
    push_text(&mut ms, "type", &t.track_type);
    push_text(&mut ms, "codec", &t.codec);
    push_number(&mut ms, "timescale", t.timescale as u64);
    push_text(&mut ms, "initCid", &t.init_cid);
    push_text(&mut ms, "blobCid", &t.blob_cid);
    push_number(&mut ms, "blobSize", t.blob_size);
    push_member(&mut ms, "segments", describe_segments(&t.segments));
    if same_text(t.track_type.as_str(), "video") {
        push_number(&mut ms, "width", t.width as u64);
        push_number(&mut ms, "height", t.height as u64);
    } else {
        push_number(&mut ms, "channels", t.channels as u64);
        push_number(&mut ms, "sampleRate", t.sample_rate as u64);
    }
    proof {
        lemma_object_view(ms);
        assert(members_view(ms@) =~= track_json(t@)->Object_0);
    }
    Json::Object(ms)
}

/// What is said of the tracks, under their keys; the last counts where two have
/// the same key.
pub open spec fn tracks_json(es: Seq<TrackEntry>) -> Seq<MemberView>
    decreases es.len(),
{
    if es.len() == 0 {
        seq![]
    } else {
        put(tracks_json(es.drop_last()), es.last().key@, track_json(es.last().track@))
    }
}

/// The document about the tracks `es`, the primary flat MP4 being `cid` of `size`
/// bytes.
pub open spec fn metadata_json(cid: Seq<char>, size: u64, es: Seq<TrackEntry>) -> JsonView {
    JsonView::Object(
        seq![
            text_member("blobCid"@, cid),
            number_member("blobSize"@, size),
            MemberView { key: "tracks"@, value: JsonView::Object(tracks_json(es)) },
        ],
    )
}

/// The document about the tracks.
pub fn describe_blobs(primary: &PrimaryBlob, entries: &[TrackEntry]) -> (r: Json)
    ensures
        r@ == metadata_json(primary.cid@, primary.size, entries@),
{
    let mut tracks: Vec<Member> = Vec::new();
    let mut i: usize = 0;
    proof {
        assert(members_view(tracks@) =~= seq![]);
        assert(entries@.take(0) =~= seq![]);
    }
    while i < entries.len()
        invariant
            i <= entries@.len(),
            members_view(tracks@) == tracks_json(entries@.take(i as int)),
        decreases entries@.len() - i,
    {
        let e = &entries[i];
        put_member(&mut tracks, e.key.as_str(), describe_track(&e.track));
        i += 1;
        assert(entries@.take(i as int).drop_last() =~= entries@.take(i - 1));
    }
    assert(entries@.take(i as int) =~= entries@);
    let mut ms: Vec<Member> = Vec::new();
    assert(members_view(ms@) =~= seq![]);
    push_text(&mut ms, "blobCid", &primary.cid);
    push_number(&mut ms, "blobSize", primary.size);
    proof {
        lemma_object_view(tracks);
    }
    push_member(&mut ms, "tracks", Json::Object(tracks));
    proof {
        lemma_object_view(ms);
        assert(members_view(ms@) =~= metadata_json(
            primary.cid@,
            primary.size,
            entries@,
        )->Object_0);
    }
    Json::Object(ms)
}

/// The text of the document about the tracks, indented.
pub fn blob_metadata(primary: &PrimaryBlob, entries: &[TrackEntry]) -> (r: String)
    ensures
        r@ == match pretty_json(metadata_json(primary.cid@, primary.size, entries@)) {
            Some(t) => t,
            None => ""@,
        },
{
    match write_pretty(&describe_blobs(primary, entries)) {
        Some(t) => t,
        None => "".to_string(),
    }
}

} // verus!
