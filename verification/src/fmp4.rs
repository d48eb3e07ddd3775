//! Fragmented MP4: what a written file is told as.

use std::collections::BTreeMap;
use vstd::prelude::*;
use vstd::slice::slice_to_vec;

use crate::catalog::Catalog;
use crate::hls::{init_of, make_track, track_of, BlobSegment, BlobTrack};
use crate::segment::sat64;
use crate::text::{decimal, push_decimal, same_text};
use crate::tracks::{keys_of, lists, sorted};

verus! {

/// What the writer of a fragmented MP4 knows of a track.
#[derive(Debug)]
pub struct TrackBody {
    pub timescale: u32,
    /// Where the segments of the track lie in the file.
    pub segments: Vec<BlobSegment>,
}

/// The tracks of a fragmented MP4, ascending, each with its segments, its init
/// segment and what the catalog says of it. The file itself is not identified yet.
pub fn fmp4_tracks(
    catalog: &Catalog,
    bodies: &BTreeMap<u32, TrackBody>,
    inits: &BTreeMap<u32, Vec<u8>>,
) -> (r: Vec<BlobTrack>)
    ensures
        ({
            let ids = sorted(bodies@.dom());
            &&& lists(ids, bodies@.dom())
            &&& r@.len() == ids.len()
            &&& forall|i: int|
                0 <= i < ids.len() ==> (#[trigger] r@[i])@ == track_of(
                    catalog,
                    ids[i],
                    bodies@[ids[i]].timescale,
                    bodies@[ids[i]].segments@,
                    init_of(inits@, ids[i]),
                    ""@,
                    0,
                )
        }),
{
    let ids = keys_of(bodies);
    let mut out: Vec<BlobTrack> = Vec::new();
    let mut i: usize = 0;
    while i < ids.len()
        invariant
            i <= ids@.len(),
            lists(ids@, bodies@.dom()),
            out@.len() == i,
            forall|j: int|
                0 <= j < i ==> (#[trigger] out@[j])@ == track_of(
                    catalog,
                    ids@[j],
                    bodies@[ids@[j]].timescale,
                    bodies@[ids@[j]].segments@,
                    init_of(inits@, ids@[j]),
                    ""@,
                    0,
                ),
        decreases ids@.len() - i,
    {
        let tid: u32 = ids[i];
        assert(ids@.contains(tid)) by {
            assert(ids@[i as int] == tid);
        }
        assert(bodies@.contains_key(tid));
        let init: Vec<u8> = match inits.get(&tid) {
            Some(v) => slice_to_vec(v.as_slice()),
            None => Vec::new(),
        };
        assert(init@ =~= init_of(inits@, tid));
        match bodies.get(&tid) {
            None => {},
            Some(body) => {
                let segments = slice_to_vec(body.segments.as_slice());
                out.push(make_track(catalog, tid, body.timescale, segments, init, "", 0));
            },
        }
        i += 1;
    }
    out
}

/// How many segments the video tracks among `tracks` have.
pub open spec fn video_segments(tracks: Seq<BlobTrack>) -> int
    decreases tracks.len(),
{
    if tracks.len() == 0 {
        0
    } else if tracks.last().track_type@ == "video"@ {
        video_segments(tracks.drop_last()) + tracks.last().segments@.len()
    } else {
        video_segments(tracks.drop_last())
    }
}

/// The line about a fragmented MP4 of `size` bytes.
pub open spec fn written_text(gops: nat, size: nat) -> Seq<char> {
    "fMP4 written ("@ + decimal(gops) + " GOPs, "@ + decimal(size) + " bytes)"@
}

/// The line about a fragmented MP4 of `size` bytes with the given tracks. Its GOPs
/// are the segments of its video.
pub fn written_line(tracks: &Vec<BlobTrack>, size: u64) -> (r: String)
    ensures
        r@ == written_text(sat64(video_segments(tracks@)) as nat, size as nat),
{
    let mut gops: u64 = 0;
    let mut i: usize = 0;
    assert(tracks@.take(0) =~= seq![]);
    while i < tracks.len()
        invariant
            i <= tracks@.len(),
            video_segments(tracks@.take(i as int)) >= 0,
            gops == sat64(video_segments(tracks@.take(i as int))),
        decreases tracks@.len() - i,
    {
        if same_text(tracks[i].track_type.as_str(), "video") {
            gops = gops.saturating_add(tracks[i].segments.len() as u64);
        }
        i += 1;
        proof {
            let t = tracks@.take(i as int);
            assert(t.drop_last() =~= tracks@.take(i - 1));
            assert(t.last() == tracks@[i - 1]);
        }
    }
    assert(tracks@.take(i as int) =~= tracks@);
    let mut out = "fMP4 written (".to_string();
    push_decimal(&mut out, gops);
    out.push_str(" GOPs, ");
    push_decimal(&mut out, size);
    out.push_str(" bytes)");
    out
}

} // verus!
