//! HLS: grouping a flat MP4's fragments into segments, and the playlists over
//! them.
//!
//! Durations in seconds, bandwidths and frame rates are fractions; they come in
//! as the texts and numbers that go into the playlists.

use std::collections::BTreeMap;

use vstd::prelude::*;
use vstd::slice::{slice_subrange, slice_to_vec};

use crate::catalog::{AudioConfig, Catalog, VideoConfig};
use crate::cid::{blake3_digest, cid_text, from_bytes};
use crate::keymap::{texts, KeyMap};
use crate::segment::{sat32, sat64};
use crate::text::{chars_of, decimal, has_prefix, push_decimal, same_text, starts, string_of};
use crate::tracks::{keys_of, lists, sorted};

verus! {

/// One fragment of a track in a flat MP4.
#[derive(Clone, Copy, Debug)]
pub struct FlatFragment {
    pub offset: u64,
    pub size: u64,
    /// Duration in ticks of the track.
    pub duration: u32,
    /// Whether decoding can start here.
    pub is_sync: bool,
}

/// A byte range of a flat MP4 that is one segment of a track.
#[derive(Clone, Copy, Debug, PartialEq, Eq)]
pub struct BlobSegment {
    pub offset: u64,
    pub size: u64,
    /// Duration in ticks of the track.
    pub duration_ticks: u64,
    pub sample_count: u32,
}

/// Nothing gathered.
pub open spec fn no_segment() -> BlobSegment {
    BlobSegment { offset: 0, size: 0, duration_ticks: 0, sample_count: 0 }
}

/// `c` with one more fragment. A segment lies where its first bytes do.
pub open spec fn grown(c: BlobSegment, f: FlatFragment) -> BlobSegment {
    BlobSegment {
        offset: if c.size == 0 {
            f.offset
        } else {
            c.offset
        },
        size: sat64(c.size + f.size),
        duration_ticks: sat64(c.duration_ticks + f.duration),
        sample_count: sat32(c.sample_count + 1),
    }
}

/// The segments that are complete, and the one being gathered.
pub struct Grouping {
    pub done: Seq<BlobSegment>,
    pub open: BlobSegment,
}

/// All segments of `g`.
pub open spec fn all_segments(g: Grouping) -> Seq<BlobSegment> {
    if g.open.size > 0 {
        g.done.push(g.open)
    } else {
        g.done
    }
}

/// Groups video fragments: a sync sample ends the segment before it, if that
/// has any bytes.
pub open spec fn video_grouping(fs: Seq<FlatFragment>) -> Grouping
    decreases fs.len(),
{
    if fs.len() == 0 {
        Grouping { done: seq![], open: no_segment() }
    } else {
        let g = video_grouping(fs.drop_last());
        let f = fs.last();
        if f.is_sync && g.open.size > 0 {
            Grouping { done: g.done.push(g.open), open: grown(no_segment(), f) }
        } else {
            Grouping { done: g.done, open: grown(g.open, f) }
        }
    }
}

/// Groups audio fragments: a segment ends once it lasts two seconds.
pub open spec fn audio_grouping(fs: Seq<FlatFragment>, timescale: u32) -> Grouping
    decreases fs.len(),
{
    if fs.len() == 0 {
        Grouping { done: seq![], open: no_segment() }
    } else {
        let g = audio_grouping(fs.drop_last(), timescale);
        let c = grown(g.open, fs.last());
        if c.duration_ticks >= timescale * 2 {
            Grouping { done: g.done.push(c), open: no_segment() }
        } else {
            Grouping { done: g.done, open: c }
        }
    }
}

fn grow(c: &BlobSegment, f: &FlatFragment) -> (r: BlobSegment)
    ensures
        r == grown(*c, *f),
{
    BlobSegment {
        offset: if c.size == 0 {
            f.offset
        } else {
            c.offset
        },
        size: c.size.saturating_add(f.size),
        duration_ticks: c.duration_ticks.saturating_add(f.duration as u64),
        sample_count: c.sample_count.saturating_add(1),
    }
}

/// Groups the fragments of a video track into segments.
pub fn group_fragments_video(fragments: &Vec<FlatFragment>) -> (r: Vec<BlobSegment>)
    ensures
        r@ == all_segments(video_grouping(fragments@)),
{
    let mut done: Vec<BlobSegment> = Vec::new();
    let mut open = BlobSegment { offset: 0, size: 0, duration_ticks: 0, sample_count: 0 };
    let mut i: usize = 0;
    assert(fragments@.take(0) =~= seq![]);
    assert(done@ =~= seq![]);
    while i < fragments.len()
        invariant
            i <= fragments@.len(),
            video_grouping(fragments@.take(i as int)) == (Grouping { done: done@, open }),
        decreases fragments@.len() - i,
    {
        assert(fragments@.take(i + 1).drop_last() =~= fragments@.take(i as int));
        let f = fragments[i];
        if f.is_sync && open.size > 0 {
            done.push(open);
            open = BlobSegment { offset: 0, size: 0, duration_ticks: 0, sample_count: 0 };
        }
        open = grow(&open, &f);
        i += 1;
    }
    assert(fragments@.take(i as int) =~= fragments@);
    if open.size > 0 {
        done.push(open);
    }
    done
}

/// Groups the fragments of an audio track into segments.
pub fn group_fragments_audio(fragments: &Vec<FlatFragment>, timescale: u32) -> (r: Vec<BlobSegment>)
    ensures
        r@ == all_segments(audio_grouping(fragments@, timescale)),
{
    let target: u64 = timescale as u64 * 2;
    let mut done: Vec<BlobSegment> = Vec::new();
    let mut open = BlobSegment { offset: 0, size: 0, duration_ticks: 0, sample_count: 0 };
    let mut i: usize = 0;
    assert(fragments@.take(0) =~= seq![]);
    assert(done@ =~= seq![]);
    while i < fragments.len()
        invariant
            i <= fragments@.len(),
            target == timescale * 2,
            audio_grouping(fragments@.take(i as int), timescale) == (Grouping {
                done: done@,
                open,
            }),
        decreases fragments@.len() - i,
    {
        assert(fragments@.take(i + 1).drop_last() =~= fragments@.take(i as int));
        open = grow(&open, &fragments[i]);
        if open.duration_ticks >= target {
            done.push(open);
            open = BlobSegment { offset: 0, size: 0, duration_ticks: 0, sample_count: 0 };
        }
        i += 1;
    }
    assert(fragments@.take(i as int) =~= fragments@);
    if open.size > 0 {
        done.push(open);
    }
    done
}

/// How many bytes the fragments have.
pub open spec fn fragment_bytes(fs: Seq<FlatFragment>) -> int
    decreases fs.len(),
{
    if fs.len() == 0 {
        0
    } else {
        fragment_bytes(fs.drop_last()) + fs.last().size
    }
}

/// How many bytes the segments have.
pub open spec fn segment_bytes(ss: Seq<BlobSegment>) -> int
    decreases ss.len(),
{
    if ss.len() == 0 {
        0
    } else {
        segment_bytes(ss.drop_last()) + ss.last().size
    }
}

/// How long the fragments last, in ticks.
pub open spec fn fragment_ticks(fs: Seq<FlatFragment>) -> int
    decreases fs.len(),
{
    if fs.len() == 0 {
        0
    } else {
        fragment_ticks(fs.drop_last()) + fs.last().duration
    }
}

/// How long the segments last, in ticks.
pub open spec fn segment_ticks(ss: Seq<BlobSegment>) -> int
    decreases ss.len(),
{
    if ss.len() == 0 {
        0
    } else {
        segment_ticks(ss.drop_last()) + ss.last().duration_ticks
    }
}

/// How many samples the segments have.
pub open spec fn segment_samples(ss: Seq<BlobSegment>) -> int
    decreases ss.len(),
{
    if ss.len() == 0 {
        0
    } else {
        segment_samples(ss.drop_last()) + ss.last().sample_count
    }
}

/// Whether `g` holds the bytes, the time and the samples of `fs`, no more and no
/// less.
spec fn balanced(g: Grouping, fs: Seq<FlatFragment>) -> bool {
    &&& segment_bytes(g.done) + g.open.size == fragment_bytes(fs)
    &&& segment_ticks(g.done) + g.open.duration_ticks == fragment_ticks(fs)
    &&& segment_samples(g.done) + g.open.sample_count == fs.len()
    &&& segment_bytes(g.done) >= 0
    &&& segment_ticks(g.done) >= 0
    &&& segment_samples(g.done) >= 0
}

proof fn lemma_pushed(ss: Seq<BlobSegment>, s: BlobSegment)
    ensures
        segment_bytes(ss.push(s)) == segment_bytes(ss) + s.size,
        segment_ticks(ss.push(s)) == segment_ticks(ss) + s.duration_ticks,
        segment_samples(ss.push(s)) == segment_samples(ss) + s.sample_count,
{
    assert(ss.push(s).drop_last() =~= ss);
}

proof fn lemma_fragments_grow(fs: Seq<FlatFragment>)
    requires
        fs.len() > 0,
    ensures
        0 <= fragment_bytes(fs.drop_last()) <= fragment_bytes(fs),
        0 <= fragment_ticks(fs.drop_last()) <= fragment_ticks(fs),
    decreases fs.len(),
{
    if fs.len() > 1 {
        lemma_fragments_grow(fs.drop_last());
    }
}

/// Whether the totals of `fs` fit their fields.
pub open spec fn fits(fs: Seq<FlatFragment>) -> bool {
    fragment_bytes(fs) <= u64::MAX && fragment_ticks(fs) <= u64::MAX && fs.len() <= u32::MAX
}

proof fn lemma_video_balanced(fs: Seq<FlatFragment>)
    requires
        fits(fs),
    ensures
        balanced(video_grouping(fs), fs),
    decreases fs.len(),
{
    if fs.len() > 0 {
        lemma_fragments_grow(fs);
        lemma_video_balanced(fs.drop_last());
        let g = video_grouping(fs.drop_last());
        lemma_pushed(g.done, g.open);
    }
}

proof fn lemma_audio_balanced(fs: Seq<FlatFragment>, timescale: u32)
    requires
        fits(fs),
    ensures
        balanced(audio_grouping(fs, timescale), fs),
    decreases fs.len(),
{
    if fs.len() > 0 {
        lemma_fragments_grow(fs);
        lemma_audio_balanced(fs.drop_last(), timescale);
        let g = audio_grouping(fs.drop_last(), timescale);
        lemma_pushed(g.done, grown(g.open, fs.last()));
    }
}

/// The segments of a track have all its bytes; and, where no fragment is empty,
/// all its time and all its samples.
pub proof fn law_groups_lose_nothing(fs: Seq<FlatFragment>, timescale: u32)
    requires
        fits(fs),
    ensures
        segment_bytes(all_segments(video_grouping(fs))) == fragment_bytes(fs),
        segment_bytes(all_segments(audio_grouping(fs, timescale))) == fragment_bytes(fs),
        (forall|i: int| 0 <= i < fs.len() ==> (#[trigger] fs[i]).size > 0) ==> {
            &&& segment_ticks(all_segments(video_grouping(fs))) == fragment_ticks(fs)
            &&& segment_samples(all_segments(video_grouping(fs))) == fs.len()
            &&& segment_ticks(all_segments(audio_grouping(fs, timescale))) == fragment_ticks(fs)
            &&& segment_samples(all_segments(audio_grouping(fs, timescale))) == fs.len()
        },
{
    lemma_video_balanced(fs);
    lemma_audio_balanced(fs, timescale);
    let v = video_grouping(fs);
    let a = audio_grouping(fs, timescale);
    lemma_pushed(v.done, v.open);
    lemma_pushed(a.done, a.open);
    if forall|i: int| 0 <= i < fs.len() ==> (#[trigger] fs[i]).size > 0 {
        lemma_open_has_bytes(fs, timescale);
    }
}

proof fn lemma_open_has_bytes(fs: Seq<FlatFragment>, timescale: u32)
    requires
        forall|i: int| 0 <= i < fs.len() ==> (#[trigger] fs[i]).size > 0,
    ensures
        video_grouping(fs).open.size == 0 ==> video_grouping(fs).open == no_segment(),
        audio_grouping(fs, timescale).open.size == 0 ==> audio_grouping(fs, timescale).open
            == no_segment(),
    decreases fs.len(),
{
    if fs.len() > 0 {
        let before = fs.drop_last();
        assert forall|i: int| 0 <= i < before.len() implies (#[trigger] before[i]).size > 0 by {
            assert(before[i] == fs[i]);
        }
        lemma_open_has_bytes(before, timescale);
        assert(fs[fs.len() - 1].size > 0);
    }
}

/// Whether `s` lies where a sync sample of `fs` does.
pub open spec fn at_sync(fs: Seq<FlatFragment>, s: BlobSegment) -> bool {
    exists|i: int| 0 <= i < fs.len() && (#[trigger] fs[i]).is_sync && fs[i].offset == s.offset
}

proof fn lemma_video_at_sync(fs: Seq<FlatFragment>)
    requires
        forall|i: int| 0 <= i < fs.len() ==> (#[trigger] fs[i]).size > 0,
    ensures
        ({
            let g = video_grouping(fs);
            &&& forall|k: int| 1 <= k < g.done.len() ==> at_sync(fs, #[trigger] g.done[k])
            &&& g.done.len() > 0 ==> at_sync(fs, g.open) && g.open.size > 0
        }),
    decreases fs.len(),
{
    if fs.len() > 0 {
        let before = fs.drop_last();
        assert forall|i: int| 0 <= i < before.len() implies (#[trigger] before[i]).size > 0 by {
            assert(before[i] == fs[i]);
        }
        lemma_video_at_sync(before);
        let g0 = video_grouping(before);
        let g = video_grouping(fs);
        let last = fs.len() - 1;
        assert(fs[last] == fs.last());
        assert forall|s: BlobSegment| at_sync(before, s) implies #[trigger] at_sync(fs, s) by {
            let i = choose|i: int|
                0 <= i < before.len() && (#[trigger] before[i]).is_sync && before[i].offset
                    == s.offset;
            assert(fs[i] == before[i]);
        }
        assert forall|k: int| 1 <= k < g.done.len() implies at_sync(fs, #[trigger] g.done[k]) by {
            if k < g0.done.len() {
                assert(g.done[k] == g0.done[k]);
                assert(at_sync(before, g0.done[k]));
            } else {
                assert(g.done[k] == g0.open);
                assert(at_sync(before, g0.open));
            }
        }
        if g.done.len() > 0 {
            if fs.last().is_sync && g0.open.size > 0 {
                assert(fs[last].is_sync && fs[last].offset == g.open.offset);
            } else {
                assert(at_sync(before, g0.open));
                assert(at_sync(fs, g0.open));
                let i = choose|i: int|
                    0 <= i < fs.len() && (#[trigger] fs[i]).is_sync && fs[i].offset
                        == g0.open.offset;
                assert(fs[i].offset == g.open.offset);
            }
        }
    }
}

/// Every video segment but the first begins at a sync sample. No fragment is to
/// be empty.
pub proof fn law_video_segments_open_at_sync(fs: Seq<FlatFragment>, k: int)
    requires
        forall|i: int| 0 <= i < fs.len() ==> (#[trigger] fs[i]).size > 0,
        1 <= k < all_segments(video_grouping(fs)).len(),
    ensures
        at_sync(fs, all_segments(video_grouping(fs))[k]),
{
    lemma_video_at_sync(fs);
    let g = video_grouping(fs);
    if k < g.done.len() {
        assert(all_segments(g)[k] == g.done[k]);
    }
}

/// Whether the segment `s` is the fragments `run`, which follow each other: it lies where
/// the first of them does, and has the bytes, the time and the number of all of them.
pub open spec fn is_run(s: BlobSegment, run: Seq<FlatFragment>) -> bool {
    &&& run.len() > 0
    &&& s.offset == run[0].offset
    &&& s.size == fragment_bytes(run)
    &&& s.duration_ticks == fragment_ticks(run)
    &&& s.sample_count == run.len()
}

/// Whether the segment `s` is the fragments of `fs` from `a` up to `b`.
pub open spec fn is_between(s: BlobSegment, fs: Seq<FlatFragment>, a: int, b: int) -> bool {
    0 <= a && a < b && b <= fs.len() && is_run(s, fs.subrange(a, b))
}

/// Whether `cuts` cuts `fs` into the segments `ss`: segment `k` is the fragments from
/// `cuts[k]` up to `cuts[k + 1]`.
pub open spec fn cut_into(fs: Seq<FlatFragment>, ss: Seq<BlobSegment>, cuts: Seq<int>) -> bool {
    &&& cuts.len() == ss.len() + 1
    &&& cuts[0] == 0
    &&& cuts.last() == fs.len()
    &&& forall|k: int|
        0 <= k < ss.len() ==> is_between(#[trigger] ss[k], fs, cuts[k], cuts[k + 1])
}

/// Whether every one of `fs` has bytes.
pub open spec fn none_is_empty(fs: Seq<FlatFragment>) -> bool {
    forall|i: int| 0 <= i < fs.len() ==> (#[trigger] fs[i]).size > 0
}

/// Whether what is gathered, `open`, is the fragments of `fs` from `from` on.
spec fn gathers_from(open: BlobSegment, fs: Seq<FlatFragment>, from: int) -> bool {
    0 <= from <= fs.len() && if from == fs.len() {
        open == no_segment()
    } else {
        is_run(open, fs.skip(from))
    }
}

/// The complete segments of `g` and the one being gathered, cut out of `fs` at `cuts`.
spec fn cut_so_far(fs: Seq<FlatFragment>, g: Grouping, cuts: Seq<int>) -> bool {
    &&& cuts.len() == g.done.len() + 1
    &&& 0 <= cuts.last() <= fs.len()
    &&& cut_into(fs.take(cuts.last()), g.done, cuts)
    &&& gathers_from(g.open, fs, cuts.last())
}

proof fn lemma_run_grows(open: BlobSegment, fs: Seq<FlatFragment>, f: FlatFragment, from: int)
    requires
        gathers_from(open, fs, from),
        f.size > 0,
        none_is_empty(fs),
        open.size + f.size <= u64::MAX,
        open.duration_ticks + f.duration <= u64::MAX,
        open.sample_count + 1 <= u32::MAX,
    ensures
        is_run(grown(open, f), fs.push(f).skip(from)),
{
    let run = fs.push(f).skip(from);
    assert(run.drop_last() =~= fs.skip(from));
    assert(run.last() == f);
    if from < fs.len() {
        assert(run[0] == fs.skip(from)[0]);
        lemma_bytes_positive(fs.skip(from));
        assert(fs.skip(from)[0] == fs[from]);
    } else {
        assert(fs.skip(from) =~= seq![]);
        assert(run =~= seq![f]);
        assert(fragment_bytes(Seq::<FlatFragment>::empty()) == 0);
        assert(fragment_ticks(Seq::<FlatFragment>::empty()) == 0);
    }
}

proof fn lemma_bytes_positive(fs: Seq<FlatFragment>)
    requires
        fs.len() > 0,
        none_is_empty(fs),
    ensures
        fragment_bytes(fs) > 0,
    decreases fs.len(),
{
    lemma_fragments_grow(fs);
    assert(fs[fs.len() - 1].size > 0);
}

proof fn lemma_skip_not_empty(fs: Seq<FlatFragment>, from: int)
    requires
        none_is_empty(fs),
        0 <= from < fs.len(),
    ensures
        fragment_bytes(fs.skip(from)) > 0,
{
    let run = fs.skip(from);
    assert forall|i: int| 0 <= i < run.len() implies (#[trigger] run[i]).size > 0 by {
        assert(run[i] == fs[from + i]);
    }
    lemma_bytes_positive(run);
}

/// The cuts of the complete segments stay where they are when a fragment comes.
proof fn lemma_cuts_stay(fs: Seq<FlatFragment>, f: FlatFragment, ss: Seq<BlobSegment>, cuts: Seq<int>)
    requires
        cuts.len() == ss.len() + 1,
        0 <= cuts.last() <= fs.len(),
        cut_into(fs.take(cuts.last()), ss, cuts),
    ensures
        cut_into(fs.push(f).take(cuts.last()), ss, cuts),
{
    assert(fs.push(f).take(cuts.last()) =~= fs.take(cuts.last()));
}

/// One more segment, of the fragments from the last cut to the end.
proof fn lemma_cut_more(fs: Seq<FlatFragment>, ss: Seq<BlobSegment>, s: BlobSegment, cuts: Seq<int>)
    requires
        cuts.len() == ss.len() + 1,
        0 <= cuts.last() < fs.len(),
        cut_into(fs.take(cuts.last()), ss, cuts),
        is_run(s, fs.skip(cuts.last())),
    ensures
        cut_into(fs, ss.push(s), cuts.push(fs.len() as int)),
{
    let more = ss.push(s);
    let ends = cuts.push(fs.len() as int);
    let n = cuts.last();
    assert forall|k: int| 0 <= k < more.len() implies is_between(
        #[trigger] more[k],
        fs,
        ends[k],
        ends[k + 1],
    ) by {
        if k < ss.len() {
            assert(is_between(ss[k], fs.take(n), cuts[k], cuts[k + 1]));
            assert(fs.take(n).subrange(cuts[k], cuts[k + 1]) =~= fs.subrange(cuts[k], cuts[k + 1]));
        } else {
            assert(fs.subrange(n, fs.len() as int) =~= fs.skip(n));
        }
    }
}

/// Whether a run of audio fragments has just reached two seconds: it lasts that long, and
/// without its last fragment it did not.
pub open spec fn just_long_enough(run: Seq<FlatFragment>, timescale: u32) -> bool {
    &&& fragment_ticks(run) >= 2 * timescale
    &&& too_short_before(run, timescale)
}

/// Whether a run of audio fragments lasts less than two seconds without its last one.
pub open spec fn too_short_before(run: Seq<FlatFragment>, timescale: u32) -> bool {
    run.len() > 1 ==> fragment_ticks(run.drop_last()) < 2 * timescale
}

proof fn lemma_audio_runs(fs: Seq<FlatFragment>, timescale: u32) -> (cuts: Seq<int>)
    requires
        fits(fs),
        none_is_empty(fs),
    ensures
        cut_so_far(fs, audio_grouping(fs, timescale), cuts),
        forall|k: int|
            #![trigger cuts[k]]
            0 <= k < cuts.len() - 1 ==> just_long_enough(
                fs.subrange(cuts[k], cuts[k + 1]),
                timescale,
            ),
        cuts.last() < fs.len() ==> fragment_ticks(fs.skip(cuts.last())) < 2 * timescale,
    decreases fs.len(),
{
    if fs.len() == 0 {
        let cuts = seq![0int];
        assert(fs.take(0) =~= fs);
        cuts
    } else {
        let before = fs.drop_last();
        let f = fs.last();
        assert(fs =~= before.push(f));
        assert forall|i: int| 0 <= i < before.len() implies (#[trigger] before[i]).size > 0 by {
            assert(before[i] == fs[i]);
        }
        assert(fs[fs.len() - 1].size > 0);
        lemma_fragments_grow(fs);
        let cuts = lemma_audio_runs(before, timescale);
        lemma_audio_balanced(before, timescale);
        let g = audio_grouping(before, timescale);
        let c = grown(g.open, f);
        let n = cuts.last();
        lemma_run_grows(g.open, before, f, n);
        lemma_cuts_stay(before, f, g.done, cuts);
        let run = fs.skip(n);
        assert(run.drop_last() =~= before.skip(n));
        assert forall|k: int|
            #![trigger cuts[k]]
            0 <= k < cuts.len() - 1 implies just_long_enough(
            fs.subrange(cuts[k], cuts[k + 1]),
            timescale,
        ) by {
            assert(is_between(g.done[k], before.take(n), cuts[k], cuts[k + 1]));
            assert(before.subrange(cuts[k], cuts[k + 1]) =~= fs.subrange(cuts[k], cuts[k + 1]));
        }
        if c.duration_ticks >= timescale * 2 {
            let ends = cuts.push(fs.len() as int);
            lemma_cut_more(fs, g.done, c, cuts);
            assert(fs.take(fs.len() as int) =~= fs);
            assert forall|k: int|
                #![trigger ends[k]]
                0 <= k < ends.len() - 1 implies just_long_enough(
                fs.subrange(ends[k], ends[k + 1]),
                timescale,
            ) by {
                if k < cuts.len() - 1 {
                    assert(ends[k] == cuts[k] && ends[k + 1] == cuts[k + 1]);
                } else {
                    assert(fs.subrange(n, fs.len() as int) =~= run);
                }
            }
            ends
        } else {
            cuts
        }
    }
}

/// The segments of an audio track follow each other without a gap, each at the offset of
/// its first fragment. Each ends with the fragment that makes it last two seconds; the
/// last one ends with the track. No fragment is to be empty.
pub proof fn law_audio_segments_last_two_seconds(fs: Seq<FlatFragment>, timescale: u32) -> (cuts:
    Seq<int>)
    requires
        fits(fs),
        none_is_empty(fs),
    ensures
        cut_into(fs, all_segments(audio_grouping(fs, timescale)), cuts),
        forall|k: int|
            #![trigger cuts[k]]
            0 <= k < cuts.len() - 2 ==> just_long_enough(
                fs.subrange(cuts[k], cuts[k + 1]),
                timescale,
            ),
        cuts.len() > 1 ==> too_short_before(
            fs.subrange(cuts[cuts.len() - 2], fs.len() as int),
            timescale,
        ),
{
    let cuts = lemma_audio_runs(fs, timescale);
    let g = audio_grouping(fs, timescale);
    let n = cuts.last();
    if n < fs.len() {
        lemma_skip_not_empty(fs, n);
        lemma_cut_more(fs, g.done, g.open, cuts);
        let ends = cuts.push(fs.len() as int);
        let run = fs.skip(n);
        assert(fs.subrange(n, fs.len() as int) =~= run);
        lemma_fragments_grow(run);
        assert forall|k: int|
            #![trigger ends[k]]
            0 <= k < ends.len() - 2 implies just_long_enough(
            fs.subrange(ends[k], ends[k + 1]),
            timescale,
        ) by {
            assert(ends[k] == cuts[k] && ends[k + 1] == cuts[k + 1]);
        }
        ends
    } else {
        assert(fs.take(n) =~= fs);
        if cuts.len() > 1 {
            let k = cuts.len() - 2;
            assert(just_long_enough(fs.subrange(cuts[k], cuts[k + 1]), timescale));
        }
        cuts
    }
}

/// Whether none of the fragments `run` but the first is one that decoding can start at.
pub open spec fn sync_only_first(run: Seq<FlatFragment>) -> bool {
    forall|i: int| 0 < i < run.len() ==> !(#[trigger] run[i]).is_sync
}

proof fn lemma_video_runs(fs: Seq<FlatFragment>) -> (cuts: Seq<int>)
    requires
        fits(fs),
        none_is_empty(fs),
    ensures
        cut_so_far(fs, video_grouping(fs), cuts),
        forall|k: int|
            #![trigger cuts[k]]
            0 <= k < cuts.len() - 1 ==> sync_only_first(fs.subrange(cuts[k], cuts[k + 1])),
        forall|k: int| 0 < k < cuts.len() ==> 0 <= cuts[k] < fs.len() && fs[#[trigger] cuts[k]].is_sync,
        sync_only_first(fs.skip(cuts.last())),
        fs.len() > 0 ==> cuts.last() < fs.len(),
    decreases fs.len(),
{
    if fs.len() == 0 {
        let cuts = seq![0int];
        assert(fs.take(0) =~= fs);
        cuts
    } else {
        let before = fs.drop_last();
        let f = fs.last();
        assert(fs =~= before.push(f));
        assert forall|i: int| 0 <= i < before.len() implies (#[trigger] before[i]).size > 0 by {
            assert(before[i] == fs[i]);
        }
        assert(fs[fs.len() - 1].size > 0);
        lemma_fragments_grow(fs);
        let cuts = lemma_video_runs(before);
        lemma_video_balanced(before);
        let g = video_grouping(before);
        let n = cuts.last();
        lemma_cuts_stay(before, f, g.done, cuts);
        assert forall|k: int|
            #![trigger cuts[k]]
            0 <= k < cuts.len() - 1 implies sync_only_first(fs.subrange(cuts[k], cuts[k + 1])) by {
            assert(is_between(g.done[k], before.take(n), cuts[k], cuts[k + 1]));
            assert(before.subrange(cuts[k], cuts[k + 1]) =~= fs.subrange(cuts[k], cuts[k + 1]));
        }
        assert forall|k: int| 0 < k < cuts.len() implies 0 <= cuts[k] < fs.len()
            && fs[#[trigger] cuts[k]].is_sync by {
            assert(before[cuts[k]] == fs[cuts[k]]);
        }
        if n < before.len() {
            lemma_skip_not_empty(before, n);
        }
        if f.is_sync && g.open.size > 0 {
            let m = before.len() as int;
            let ends = cuts.push(m);
            assert(before.take(n) =~= fs.take(n));
            lemma_cut_more(before, g.done, g.open, cuts);
            assert(fs.take(m) =~= before);
            lemma_run_grows(no_segment(), before, f, m);
            assert forall|k: int|
                #![trigger ends[k]]
                0 <= k < ends.len() - 1 implies sync_only_first(
                fs.subrange(ends[k], ends[k + 1]),
            ) by {
                if k < cuts.len() - 1 {
                    assert(ends[k] == cuts[k] && ends[k + 1] == cuts[k + 1]);
                } else {
                    assert(fs.subrange(n, m) =~= before.skip(n));
                }
            }
            assert forall|k: int| 0 < k < ends.len() implies 0 <= ends[k] < fs.len()
                && fs[#[trigger] ends[k]].is_sync by {
                if k < cuts.len() {
                    assert(ends[k] == cuts[k]);
                }
            }
            ends
        } else {
            lemma_run_grows(g.open, before, f, n);
            let run = fs.skip(n);
            assert forall|i: int| 0 < i < run.len() implies !(#[trigger] run[i]).is_sync by {
                if i < run.len() - 1 {
                    assert(run[i] == before.skip(n)[i]);
                }
            }
            cuts
        }
    }
}

/// The segments of a video track follow each other without a gap, each at the offset of
/// its first fragment. Each but the first begins with a fragment that decoding can start
/// at, and none has another. No fragment is to be empty.
pub proof fn law_video_segments_are_cut_at_sync(fs: Seq<FlatFragment>) -> (cuts: Seq<int>)
    requires
        fits(fs),
        none_is_empty(fs),
    ensures
        cut_into(fs, all_segments(video_grouping(fs)), cuts),
        forall|k: int|
            #![trigger cuts[k]]
            0 <= k < cuts.len() - 1 ==> sync_only_first(fs.subrange(cuts[k], cuts[k + 1])),
        forall|k: int| 0 < k < cuts.len() - 1 ==> fs[#[trigger] cuts[k]].is_sync,
{
    let cuts = lemma_video_runs(fs);
    let g = video_grouping(fs);
    let n = cuts.last();
    if n < fs.len() {
        lemma_skip_not_empty(fs, n);
        lemma_cut_more(fs, g.done, g.open, cuts);
        let ends = cuts.push(fs.len() as int);
        assert(fs.subrange(n, fs.len() as int) =~= fs.skip(n));
        assert forall|k: int|
            #![trigger ends[k]]
            0 <= k < ends.len() - 1 implies sync_only_first(fs.subrange(ends[k], ends[k + 1])) by {
            if k < cuts.len() - 1 {
                assert(ends[k] == cuts[k] && ends[k + 1] == cuts[k + 1]);
            }
        }
        assert forall|k: int| 0 < k < ends.len() - 1 implies fs[#[trigger] ends[k]].is_sync by {
            assert(ends[k] == cuts[k]);
        }
        ends
    } else {
        assert(fs.take(n) =~= fs);
        cuts
    }
}

/// A track of a flat MP4.
#[derive(Debug)]
pub struct BlobTrack {
    pub track_id: u32,
    /// `video`, `audio` or `unknown`.
    pub track_type: String,
    pub codec: String,
    pub timescale: u32,
    /// Identifier of the track's init segment.
    pub init_cid: String,
    pub init_data: Vec<u8>,
    /// Identifier of the flat MP4.
    pub blob_cid: String,
    pub blob_size: u64,
    pub segments: Vec<BlobSegment>,
    pub width: u32,
    pub height: u32,
    pub channels: u32,
    pub sample_rate: u32,
}

/// Contents of a [`BlobTrack`].
#[verifier::ext_equal]
pub struct BlobTrackView {
    pub track_id: u32,
    pub track_type: Seq<char>,
    pub codec: Seq<char>,
    pub timescale: u32,
    pub init_cid: Seq<char>,
    pub init_data: Seq<u8>,
    pub blob_cid: Seq<char>,
    pub blob_size: u64,
    pub segments: Seq<BlobSegment>,
    pub width: u32,
    pub height: u32,
    pub channels: u32,
    pub sample_rate: u32,
}

impl View for BlobTrack {
    type V = BlobTrackView;

    open spec fn view(&self) -> BlobTrackView {
        BlobTrackView {
            track_id: self.track_id,
            track_type: self.track_type@,
            codec: self.codec@,
            timescale: self.timescale,
            init_cid: self.init_cid@,
            init_data: self.init_data@,
            blob_cid: self.blob_cid@,
            blob_size: self.blob_size,
            segments: self.segments@,
            width: self.width,
            height: self.height,
            channels: self.channels,
            sample_rate: self.sample_rate,
        }
    }
}

/// What the writer of a flat MP4 knows of a track.
#[derive(Debug)]
pub struct FlatTrackInfo {
    pub is_video: bool,
    pub timescale: u32,
    pub fragments: Vec<FlatFragment>,
}

/// What the playlists are made with.
#[derive(Debug, Default)]
pub struct HlsOpts {
    /// Further inputs, for alternate renditions.
    pub sidecars: Vec<String>,
    /// Whether playlists are written besides the metadata.
    pub write_playlists: bool,
}

/// The first video rendition of track `tid`, from position `i` on.
pub open spec fn video_at(m: KeyMap<VideoConfig>, tid: u32, i: int) -> Option<int>
    decreases m.order().len() - i,
{
    if i >= m.order().len() {
        None
    } else if m.nth(i).track_id == tid {
        Some(i)
    } else {
        video_at(m, tid, i + 1)
    }
}

/// The first audio rendition of track `tid`, from position `i` on.
pub open spec fn audio_at(m: KeyMap<AudioConfig>, tid: u32, i: int) -> Option<int>
    decreases m.order().len() - i,
{
    if i >= m.order().len() {
        None
    } else if m.nth(i).track_id == tid {
        Some(i)
    } else {
        audio_at(m, tid, i + 1)
    }
}

fn find_video(m: &KeyMap<VideoConfig>, tid: u32) -> (r: Option<usize>)
    ensures
        match r {
            Some(i) => video_at(*m, tid, 0) == Some(i as int) && i < m.order().len(),
            None => video_at(*m, tid, 0) is None,
        },
{
    let n: usize = m.len();
    let mut i: usize = 0;
    while i < n
        invariant
            i <= n,
            n == m.order().len(),
            video_at(*m, tid, 0) == video_at(*m, tid, i as int),
        decreases n - i,
    {
        if m.value(i).track_id() == tid {
            return Some(i);
        }
        i += 1;
    }
    None
}

fn find_audio(m: &KeyMap<AudioConfig>, tid: u32) -> (r: Option<usize>)
    ensures
        match r {
            Some(i) => audio_at(*m, tid, 0) == Some(i as int) && i < m.order().len(),
            None => audio_at(*m, tid, 0) is None,
        },
{
    let n: usize = m.len();
    let mut i: usize = 0;
    while i < n
        invariant
            i <= n,
            n == m.order().len(),
            audio_at(*m, tid, 0) == audio_at(*m, tid, i as int),
        decreases n - i,
    {
        if m.value(i).track_id() == tid {
            return Some(i);
        }
        i += 1;
    }
    None
}

/// What a catalog says of a track.
pub struct Described {
    pub track_type: Seq<char>,
    pub codec: Seq<char>,
    pub width: u32,
    pub height: u32,
    pub channels: u32,
    pub sample_rate: u32,
}

/// What the catalog `c` says of track `tid`; it looks at the video renditions
/// first.
pub open spec fn described(c: &Catalog, tid: u32) -> Described {
    let video = match c.video {
        Some(v) => video_at(v.renditions, tid, 0),
        None => None,
    };
    let audio = match c.audio {
        Some(a) => audio_at(a.renditions, tid, 0),
        None => None,
    };
    match video {
        Some(i) => {
            let v = c.video->Some_0.renditions.nth(i);
            Described {
                track_type: "video"@,
                codec: v.codec@,
                width: v.coded_width,
                height: v.coded_height,
                channels: 0,
                sample_rate: 0,
            }
        },
        None => match audio {
            Some(i) => {
                let a = c.audio->Some_0.renditions.nth(i);
                Described {
                    track_type: "audio"@,
                    codec: a.codec@,
                    width: 0,
                    height: 0,
                    channels: a.number_of_channels,
                    sample_rate: a.sample_rate,
                }
            },
            None => Described {
                track_type: "unknown"@,
                codec: ""@,
                width: 0,
                height: 0,
                channels: 0,
                sample_rate: 0,
            },
        },
    }
}

/// The track `tid` with the given segments, of a file with the identifier
/// `blob_cid`, `init` being its init segment.
pub open spec fn track_of(
    c: &Catalog,
    tid: u32,
    timescale: u32,
    segments: Seq<BlobSegment>,
    init: Seq<u8>,
    blob_cid: Seq<char>,
    blob_size: u64,
) -> BlobTrackView {
    let d = described(c, tid);
    BlobTrackView {
        track_id: tid,
        track_type: d.track_type,
        codec: d.codec,
        timescale,
        init_cid: cid_text(blake3_digest(init)),
        init_data: init,
        blob_cid,
        blob_size,
        segments,
        width: d.width,
        height: d.height,
        channels: d.channels,
        sample_rate: d.sample_rate,
    }
}

/// The track `tid` of a flat MP4 with the identifier `blob_cid`, `init` being its
/// init segment.
pub open spec fn blob_track(
    c: &Catalog,
    tid: u32,
    info: FlatTrackInfo,
    init: Seq<u8>,
    blob_cid: Seq<char>,
    blob_size: u64,
) -> BlobTrackView {
    track_of(
        c,
        tid,
        info.timescale,
        all_segments(
            if info.is_video {
                video_grouping(info.fragments@)
            } else {
                audio_grouping(info.fragments@, info.timescale)
            },
        ),
        init,
        blob_cid,
        blob_size,
    )
}

/// The track `tid` with the given segments, of a file with the identifier
/// `blob_cid`, `init` being its init segment.
pub fn make_track(
    catalog: &Catalog,
    tid: u32,
    timescale: u32,
    segments: Vec<BlobSegment>,
    init: Vec<u8>,
    blob_cid: &str,
    blob_size: u64,
) -> (r: BlobTrack)
    ensures
        r@ == track_of(catalog, tid, timescale, segments@, init@, blob_cid@, blob_size),
{
    let init_cid = from_bytes(init.as_slice());
    let mut track = BlobTrack {
        track_id: tid,
        track_type: "unknown".to_string(),
        codec: "".to_string(),
        timescale,
        init_cid,
        init_data: init,
        blob_cid: blob_cid.to_string(),
        blob_size,
        segments,
        width: 0,
        height: 0,
        channels: 0,
        sample_rate: 0,
    };
    if let Some(v) = &catalog.video {
        if let Some(i) = find_video(&v.renditions, tid) {
            let config = v.renditions.value(i);
            track.track_type = "video".to_string();
            track.codec = config.codec.clone();
            track.width = config.coded_width;
            track.height = config.coded_height;
            return track;
        }
    }
    if let Some(a) = &catalog.audio {
        if let Some(i) = find_audio(&a.renditions, tid) {
            let config = a.renditions.value(i);
            track.track_type = "audio".to_string();
            track.codec = config.codec.clone();
            track.channels = config.number_of_channels;
            track.sample_rate = config.sample_rate;
        }
    }
    track
}

/// The init segment of track `tid`; empty where there is none.
pub open spec fn init_of(inits: Map<u32, Vec<u8>>, tid: u32) -> Seq<u8> {
    if inits.contains_key(tid) {
        inits[tid]@
    } else {
        seq![]
    }
}

/// The tracks of a flat MP4, ascending: each with its segments, its init segment
/// and what the catalog says of it.
pub fn blob_tracks(
    catalog: &Catalog,
    infos: &BTreeMap<u32, FlatTrackInfo>,
    inits: &BTreeMap<u32, Vec<u8>>,
    blob_cid: &str,
    blob_size: u64,
) -> (r: Vec<BlobTrack>)
    ensures
        ({
            let ids = sorted(infos@.dom());
            &&& lists(ids, infos@.dom())
            &&& r@.len() == ids.len()
            &&& forall|i: int|
                0 <= i < ids.len() ==> (#[trigger] r@[i])@ == blob_track(
                    catalog,
                    ids[i],
                    infos@[ids[i]],
                    init_of(inits@, ids[i]),
                    blob_cid@,
                    blob_size,
                )
        }),
{
    let ids = keys_of(infos);
    let mut out: Vec<BlobTrack> = Vec::new();
    let mut i: usize = 0;
    while i < ids.len()
        invariant
            i <= ids@.len(),
            lists(ids@, infos@.dom()),
            out@.len() == i,
            forall|j: int|
                0 <= j < i ==> (#[trigger] out@[j])@ == blob_track(
                    catalog,
                    ids@[j],
                    infos@[ids@[j]],
                    init_of(inits@, ids@[j]),
                    blob_cid@,
                    blob_size,
                ),
        decreases ids@.len() - i,
    {
        let tid: u32 = ids[i];
        assert(ids@.contains(tid)) by {
            assert(ids@[i as int] == tid);
        }
        assert(infos@.contains_key(tid));
        let init: Vec<u8> = match inits.get(&tid) {
            Some(v) => slice_to_vec(v.as_slice()),
            None => Vec::new(),
        };
        assert(init@ =~= init_of(inits@, tid));
        match infos.get(&tid) {
            None => {},
            Some(info) => {
                let segments = if info.is_video {
                    group_fragments_video(&info.fragments)
                } else {
                    group_fragments_audio(&info.fragments, info.timescale)
                };
                out.push(
                    make_track(catalog, tid, info.timescale, segments, init, blob_cid, blob_size),
                );
            },
        }
        i += 1;
    }
    out
}

/// A track under the key that its playlists are named by.
#[derive(Debug)]
pub struct TrackEntry {
    pub key: String,
    pub track: BlobTrack,
}

/// The identifier of the flat MP4 whose tracks are `tracks`; empty where it has
/// none.
pub open spec fn primary_cid(tracks: Seq<BlobTrackView>) -> Seq<char> {
    if tracks.len() == 0 {
        ""@
    } else {
        tracks[0].blob_cid
    }
}

/// The first `n` characters of `s`, or all where it has fewer.
pub open spec fn first_chars(s: Seq<char>, n: int) -> Seq<char> {
    if s.len() <= n {
        s
    } else {
        s.take(n)
    }
}

/// The key of a track: its id, behind the beginning of its flat MP4's identifier
/// where that is not the primary one, so that sidecars do not collide.
pub open spec fn entry_key(t: BlobTrackView, primary: Seq<char>) -> Seq<char> {
    if t.blob_cid == primary {
        decimal(t.track_id as nat)
    } else {
        first_chars(t.blob_cid, 16) + "."@ + decimal(t.track_id as nat)
    }
}

/// Contents of the tracks in `v`.
pub open spec fn tracks_view(v: Seq<BlobTrack>) -> Seq<BlobTrackView> {
    v.map_values(|t: BlobTrack| t@)
}

fn make_key(t: &BlobTrack, primary: &String) -> (r: String)
    ensures
        r@ == entry_key(t@, primary@),
{
    let mut key = String::new();
    if t.blob_cid == *primary {
        push_decimal(&mut key, t.track_id as u64);
        assert(key@ =~= decimal(t.track_id as nat));
        return key;
    }
    let cs = chars_of(t.blob_cid.as_str());
    let n: usize = if cs.len() <= 16 {
        cs.len()
    } else {
        16
    };
    let head = slice_subrange(cs.as_slice(), 0, n);
    let mut key = string_of(head);
    assert(key@ =~= first_chars(t.blob_cid@, 16));
    key.push_str(".");
    push_decimal(&mut key, t.track_id as u64);
    key
}

/// The flat MP4 that names the files of a presentation.
#[derive(Debug)]
pub struct PrimaryBlob {
    pub cid: String,
    pub size: u64,
}

/// The flat MP4 of the primary input, whose tracks are `tracks`. Where it has no
/// track, the identifier is empty and the size 0.
pub fn primary_blob(tracks: &Vec<BlobTrack>) -> (r: PrimaryBlob)
    ensures
        r.cid@ == primary_cid(tracks_view(tracks@)),
        r.size == if tracks@.len() == 0 {
            0
        } else {
            tracks@[0].blob_size
        },
{
    if tracks.len() == 0 {
        PrimaryBlob { cid: "".to_string(), size: 0 }
    } else {
        PrimaryBlob { cid: tracks[0].blob_cid.clone(), size: tracks[0].blob_size }
    }
}

/// Gives every track its key, `primary` being the identifier of the primary flat
/// MP4.
pub fn track_entries(tracks: Vec<BlobTrack>, primary: &String) -> (r: Vec<TrackEntry>)
    ensures
        r@.len() == tracks@.len(),
        forall|i: int|
            0 <= i < r@.len() ==> (#[trigger] r@[i]).track == tracks@[i] && r@[i].key@ == entry_key(
                tracks@[i]@,
                primary@,
            ),
{
    let ghost all = tracks@;
    let mut rest = tracks;
    let mut back: Vec<TrackEntry> = Vec::new();
    while rest.len() > 0
        invariant
            rest@ == all.take(rest@.len() as int),
            rest@.len() + back@.len() == all.len(),
            forall|j: int|
                0 <= j < back@.len() ==> (#[trigger] back@[j]).track == all[all.len() - 1 - j]
                    && back@[j].key@ == entry_key(all[all.len() - 1 - j]@, primary@),
        decreases rest@.len(),
    {
        match rest.pop() {
            None => {},
            Some(track) => {
                let key = make_key(&track, primary);
                back.push(TrackEntry { key, track });
            },
        }
        assert(rest@ =~= all.take(rest@.len() as int));
    }
    let mut out: Vec<TrackEntry> = Vec::new();
    while back.len() > 0
        invariant
            out@.len() + back@.len() == all.len(),
            forall|j: int|
                0 <= j < back@.len() ==> (#[trigger] back@[j]).track == all[all.len() - 1 - j]
                    && back@[j].key@ == entry_key(all[all.len() - 1 - j]@, primary@),
            forall|j: int|
                0 <= j < out@.len() ==> (#[trigger] out@[j]).track == all[j] && out@[j].key@
                    == entry_key(all[j]@, primary@),
        decreases back@.len(),
    {
        match back.pop() {
            None => {},
            Some(e) => {
                out.push(e);
            },
        }
    }
    out
}

/// The figures of a video rendition that are fractions: its bandwidth in bits
/// per second, rounded down, and its frame rate with three decimals.
#[derive(Debug)]
pub struct Rate {
    pub bandwidth: u64,
    pub frame_rate: String,
}

/// How many bytes, ticks and samples the segments of a track have.
#[derive(Clone, Copy, Debug, PartialEq, Eq)]
pub struct Totals {
    pub bytes: u64,
    pub ticks: u64,
    pub samples: u32,
}

/// Adds up the segments of a track.
pub fn track_totals(segments: &Vec<BlobSegment>) -> (r: Totals)
    ensures
        r.bytes == sat64(segment_bytes(segments@)),
        r.ticks == sat64(segment_ticks(segments@)),
        r.samples == sat32(segment_samples(segments@)),
{
    let mut r = Totals { bytes: 0, ticks: 0, samples: 0 };
    let mut i: usize = 0;
    assert(segments@.take(0) =~= seq![]);
    while i < segments.len()
        invariant
            i <= segments@.len(),
            r.bytes == sat64(segment_bytes(segments@.take(i as int))),
            r.ticks == sat64(segment_ticks(segments@.take(i as int))),
            r.samples == sat32(segment_samples(segments@.take(i as int))),
            segment_bytes(segments@.take(i as int)) >= 0,
            segment_ticks(segments@.take(i as int)) >= 0,
            segment_samples(segments@.take(i as int)) >= 0,
        decreases segments@.len() - i,
    {
        assert(segments@.take(i + 1).drop_last() =~= segments@.take(i as int));
        r.bytes = r.bytes.saturating_add(segments[i].size);
        r.ticks = r.ticks.saturating_add(segments[i].duration_ticks);
        r.samples = r.samples.saturating_add(segments[i].sample_count);
        i += 1;
    }
    assert(segments@.take(i as int) =~= segments@);
    r
}

/// Whether `e` is an audio track.
pub open spec fn is_audio(e: TrackEntry) -> bool {
    e.track.track_type@ == "audio"@
}

/// Whether `e` is a video track.
pub open spec fn is_video(e: TrackEntry) -> bool {
    e.track.track_type@ == "video"@
}

/// Whether `e` is an AAC track.
pub open spec fn is_aac(e: TrackEntry) -> bool {
    is_audio(e) && starts(e.track.codec@, "mp4a"@)
}

/// The first AAC track from position `i` on.
pub open spec fn aac_from(es: Seq<TrackEntry>, i: int) -> Option<int>
    decreases es.len() - i,
{
    if i >= es.len() {
        None
    } else if is_aac(es[i]) {
        Some(i)
    } else {
        aac_from(es, i + 1)
    }
}

/// The first audio track from position `i` on.
pub open spec fn audio_from(es: Seq<TrackEntry>, i: int) -> Option<int>
    decreases es.len() - i,
{
    if i >= es.len() {
        None
    } else if is_audio(es[i]) {
        Some(i)
    } else {
        audio_from(es, i + 1)
    }
}

/// The default audio track: the first AAC track, which Safari plays, or else the
/// first audio track.
pub open spec fn default_audio(es: Seq<TrackEntry>) -> Option<int> {
    match aac_from(es, 0) {
        Some(i) => Some(i),
        None => audio_from(es, 0),
    }
}

/// The default audio track.
pub fn lead_audio(entries: &[TrackEntry]) -> (r: Option<usize>)
    ensures
        match r {
            Some(i) => default_audio(entries@) == Some(i as int) && i < entries@.len(),
            None => default_audio(entries@) is None,
        },
{
    let mut first: Option<usize> = None;
    let mut i: usize = 0;
    while i < entries.len()
        invariant
            i <= entries@.len(),
            aac_from(entries@, 0) == aac_from(entries@, i as int),
            match first {
                Some(f) => f < i && audio_from(entries@, 0) == Some(f as int),
                None => audio_from(entries@, 0) == audio_from(entries@, i as int),
            },
        decreases entries@.len() - i,
    {
        let t = &entries[i].track;
        if same_text(t.track_type.as_str(), "audio") {
            if has_prefix(chars_of(t.codec.as_str()).as_slice(), "mp4a") {
                return Some(i);
            }
            if first.is_none() {
                first = Some(i);
            }
        }
        i += 1;
    }
    first
}

/// The line of an audio rendition, behind `out`.
pub open spec fn audio_line(
    out: Seq<char>,
    cid: Seq<char>,
    e: TrackEntry,
    is_default: bool,
) -> Seq<char> {
    out + "#EXT-X-MEDIA:TYPE=AUDIO,GROUP-ID=\"audio\",NAME=\""@ + e.track.codec@ + "\",DEFAULT="@ + (
    if is_default {
        "YES"@
    } else {
        "NO"@
    }) + ",AUTOSELECT=YES,CHANNELS=\""@ + decimal(e.track.channels as nat) + "\",URI=\""@ + cid
        + ".audio-"@ + e.key@ + ".m3u8\"\n"@
}

/// The lines of the audio renditions among the first `n` entries. The default
/// is told by its key.
pub open spec fn audio_lines(
    out: Seq<char>,
    cid: Seq<char>,
    es: Seq<TrackEntry>,
    default_key: Option<Seq<char>>,
    n: int,
) -> Seq<char>
    decreases n,
{
    if n <= 0 {
        out
    } else {
        let before = audio_lines(out, cid, es, default_key, n - 1);
        let e = es[n - 1];
        if is_audio(e) {
            audio_line(before, cid, e, default_key == Some(e.key@))
        } else {
            before
        }
    }
}

/// The lines of a video rendition, behind `out`.
pub open spec fn video_line(
    out: Seq<char>,
    cid: Seq<char>,
    e: TrackEntry,
    audio_codec: Seq<char>,
    rate: Rate,
) -> Seq<char> {
    out + "#EXT-X-STREAM-INF:AUDIO=\"audio\",BANDWIDTH="@ + decimal(rate.bandwidth as nat)
        + ",CODECS=\""@ + e.track.codec@ + ","@ + audio_codec + "\",RESOLUTION="@ + decimal(
        e.track.width as nat,
    ) + "x"@ + decimal(e.track.height as nat) + ",FRAME-RATE="@ + rate.frame_rate@ + "\n"@ + cid
        + ".video-"@ + e.key@ + ".m3u8\n"@
}

/// The lines of the video renditions among the first `n` entries.
pub open spec fn video_lines(
    out: Seq<char>,
    cid: Seq<char>,
    es: Seq<TrackEntry>,
    audio_codec: Seq<char>,
    rates: Seq<Rate>,
    n: int,
) -> Seq<char>
    decreases n,
{
    if n <= 0 {
        out
    } else {
        let before = video_lines(out, cid, es, audio_codec, rates, n - 1);
        let e = es[n - 1];
        if is_video(e) {
            video_line(before, cid, e, audio_codec, rates[n - 1])
        } else {
            before
        }
    }
}

/// The master playlist. Without any audio the video renditions name AAC.
pub open spec fn master_text(cid: Seq<char>, es: Seq<TrackEntry>, rates: Seq<Rate>) -> Seq<char> {
    let lead = default_audio(es);
    let default_key = match lead {
        Some(i) => Some(es[i].key@),
        None => None,
    };
    let audio_codec = match lead {
        Some(i) => es[i].track.codec@,
        None => "mp4a.40.2"@,
    };
    video_lines(
        audio_lines(
            "#EXTM3U\n#EXT-X-VERSION:6\n\n"@,
            cid,
            es,
            default_key,
            es.len() as int,
        ) + "\n"@,
        cid,
        es,
        audio_codec,
        rates,
        es.len() as int,
    )
}

fn push_audio_line(out: &mut String, cid: &str, e: &TrackEntry, is_default: bool)
    ensures
        final(out)@ == audio_line(old(out)@, cid@, *e, is_default),
{
    out.push_str("#EXT-X-MEDIA:TYPE=AUDIO,GROUP-ID=\"audio\",NAME=\"");
    out.push_str(e.track.codec.as_str());
    out.push_str("\",DEFAULT=");
    out.push_str(
        if is_default {
            "YES"
        } else {
            "NO"
        },
    );
    out.push_str(",AUTOSELECT=YES,CHANNELS=\"");
    push_decimal(out, e.track.channels as u64);
    out.push_str("\",URI=\"");
    out.push_str(cid);
    out.push_str(".audio-");
    out.push_str(e.key.as_str());
    out.push_str(".m3u8\"\n");
}

fn push_video_line(out: &mut String, cid: &str, e: &TrackEntry, audio_codec: &str, rate: &Rate)
    ensures
        final(out)@ == video_line(old(out)@, cid@, *e, audio_codec@, *rate),
{
    out.push_str("#EXT-X-STREAM-INF:AUDIO=\"audio\",BANDWIDTH=");
    push_decimal(out, rate.bandwidth);
    out.push_str(",CODECS=\"");
    out.push_str(e.track.codec.as_str());
    out.push_str(",");
    out.push_str(audio_codec);
    out.push_str("\",RESOLUTION=");
    push_decimal(out, e.track.width as u64);
    out.push_str("x");
    push_decimal(out, e.track.height as u64);
    out.push_str(",FRAME-RATE=");
    out.push_str(rate.frame_rate.as_str());
    out.push_str("\n");
    out.push_str(cid);
    out.push_str(".video-");
    out.push_str(e.key.as_str());
    out.push_str(".m3u8\n");
}

/// Writes the master playlist: the audio renditions, then the video renditions,
/// each with its playlist. `rates` has the figures of every entry; those of the
/// video tracks are used.
pub fn master_playlist(cid: &str, entries: &[TrackEntry], rates: &[Rate]) -> (r: String)
    requires
        rates@.len() == entries@.len(),
    ensures
        r@ == master_text(cid@, entries@, rates@),
{
    let lead = lead_audio(entries);
    let ghost at: Option<int> = match lead {
        Some(i) => Some(i as int),
        None => None,
    };
    let ghost default_key: Option<Seq<char>> = match at {
        Some(i) => Some(entries@[i].key@),
        None => None,
    };
    let mut out = String::new();
    out.push_str("#EXTM3U\n#EXT-X-VERSION:6\n\n");
    let ghost head = "#EXTM3U\n#EXT-X-VERSION:6\n\n"@;
    assert(out@ =~= head);
    let mut i: usize = 0;
    while i < entries.len()
        invariant
            i <= entries@.len(),
            at == (match lead {
                Some(i) => Some(i as int),
                None => None,
            }),
            lead matches Some(k) ==> k < entries@.len(),
            default_key == (match at {
                Some(i) => Some(entries@[i].key@),
                None => None,
            }),
            out@ == audio_lines(head, cid@, entries@, default_key, i as int),
        decreases entries@.len() - i,
    {
        let e = &entries[i];
        if same_text(e.track.track_type.as_str(), "audio") {
            let is_default: bool = match lead {
                Some(k) => entries[k].key == e.key,
                None => false,
            };
            push_audio_line(&mut out, cid, e, is_default);
        }
        i += 1;
    }
    out.push_str("\n");
    let ghost middle = out@;
    let audio_codec: &str = match lead {
        Some(k) => entries[k].track.codec.as_str(),
        None => "mp4a.40.2",
    };
    let mut j: usize = 0;
    while j < entries.len()
        invariant
            j <= entries@.len(),
            rates@.len() == entries@.len(),
            out@ == video_lines(middle, cid@, entries@, audio_codec@, rates@, j as int),
        decreases entries@.len() - j,
    {
        let e = &entries[j];
        if same_text(e.track.track_type.as_str(), "video") {
            push_video_line(&mut out, cid, e, audio_codec, &rates[j]);
        }
        j += 1;
    }
    out
}

/// The lines of the first `n` segments, behind `out`.
pub open spec fn segment_lines(
    out: Seq<char>,
    t: BlobTrackView,
    durations: Seq<String>,
    n: int,
) -> Seq<char>
    decreases n,
{
    if n <= 0 {
        out
    } else {
        let s = t.segments[n - 1];
        segment_lines(out, t, durations, n - 1) + "#EXTINF:"@ + durations[n - 1]@
            + ",\n#EXT-X-BYTERANGE:"@ + decimal(s.size as nat) + "@"@ + decimal(s.offset as nat)
            + "\n"@ + t.blob_cid + ".mp4\n"@
    }
}

/// The media playlist of a track. `target` is the longest duration in seconds,
/// rounded up, and at least 1.
pub open spec fn media_text(t: BlobTrackView, target: u64, durations: Seq<String>) -> Seq<char> {
    segment_lines(
        "#EXTM3U\n#EXT-X-VERSION:6\n#EXT-X-PLAYLIST-TYPE:VOD\n#EXT-X-INDEPENDENT-SEGMENTS\n#EXT-X-TARGETDURATION:"@
            + decimal(target as nat) + "\n#EXT-X-MEDIA-SEQUENCE:0\n#EXT-X-MAP:URI=\""@ + t.init_cid
            + ".mp4\"\n\n"@,
        t,
        durations,
        t.segments.len() as int,
    ) + "#EXT-X-ENDLIST\n"@
}

/// Writes the media playlist of a track. `durations` has the duration of every
/// segment in seconds, with six decimals.
pub fn media_playlist(track: &BlobTrack, target: u64, durations: &[String]) -> (r: String)
    requires
        durations@.len() == track.segments@.len(),
    ensures
        r@ == media_text(track@, target, durations@),
{
    let mut out = String::new();
    let ghost head = "#EXTM3U\n#EXT-X-VERSION:6\n#EXT-X-PLAYLIST-TYPE:VOD\n#EXT-X-INDEPENDENT-SEGMENTS\n#EXT-X-TARGETDURATION:"@;
    out.push_str(
        "#EXTM3U\n#EXT-X-VERSION:6\n#EXT-X-PLAYLIST-TYPE:VOD\n#EXT-X-INDEPENDENT-SEGMENTS\n#EXT-X-TARGETDURATION:",
    );
    assert(out@ =~= head);
    push_decimal(&mut out, target);
    out.push_str("\n#EXT-X-MEDIA-SEQUENCE:0\n#EXT-X-MAP:URI=\"");
    out.push_str(track.init_cid.as_str());
    out.push_str(".mp4\"\n\n");
    let ghost start = out@;
    let mut i: usize = 0;
    while i < track.segments.len()
        invariant
            i <= track.segments@.len(),
            durations@.len() == track.segments@.len(),
            out@ == segment_lines(start, track@, durations@, i as int),
        decreases track.segments@.len() - i,
    {
        let seg = track.segments[i];
        out.push_str("#EXTINF:");
        out.push_str(durations[i].as_str());
        out.push_str(",\n#EXT-X-BYTERANGE:");
        push_decimal(&mut out, seg.size);
        out.push_str("@");
        push_decimal(&mut out, seg.offset);
        out.push_str("\n");
        out.push_str(track.blob_cid.as_str());
        out.push_str(".mp4\n");
        i += 1;
    }
    out.push_str("#EXT-X-ENDLIST\n");
    out
}

/// The file name of an entry's media playlist. Whatever is not video is named
/// audio.
pub open spec fn media_name(cid: Seq<char>, e: TrackEntry) -> Seq<char> {
    cid + (if is_video(e) {
        ".video-"@
    } else {
        ".audio-"@
    }) + e.key@ + ".m3u8"@
}

/// The file name of an entry's media playlist.
pub fn media_playlist_name(cid: &str, entry: &TrackEntry) -> (r: String)
    ensures
        r@ == media_name(cid@, *entry),
{
    let mut out = cid.to_string();
    out.push_str(
        if same_text(entry.track.track_type.as_str(), "video") {
            ".video-"
        } else {
            ".audio-"
        },
    );
    out.push_str(entry.key.as_str());
    out.push_str(".m3u8");
    out
}

/// The file name of the master playlist.
pub fn master_playlist_name(cid: &str) -> (r: String)
    ensures
        r@ == cid@ + ".m3u8"@,
{
    let mut out = cid.to_string();
    out.push_str(".m3u8");
    out
}

/// Whether `s` is among the texts in `v`.
pub fn has_text(v: &Vec<String>, s: &String) -> (r: bool)
    ensures
        r == texts(v@).contains(s@),
{
    let mut i: usize = 0;
    while i < v.len()
        invariant
            i <= v@.len(),
            forall|j: int| 0 <= j < i ==> texts(v@)[j] != s@,
        decreases v@.len() - i,
    {
        if v[i] == *s {
            assert(texts(v@)[i as int] == s@);
            return true;
        }
        i += 1;
    }
    false
}

/// The lines that name what was written: first the init segments among the
/// first `n` entries, each once.
pub open spec fn init_lines(es: Seq<TrackEntry>, n: int) -> (Seq<Seq<char>>, Seq<Seq<char>>)
    decreases n,
{
    if n <= 0 {
        (seq![], seq![])
    } else {
        let (lines, seen) = init_lines(es, n - 1);
        let t = es[n - 1].track;
        if seen.contains(t.init_cid@) {
            (lines, seen)
        } else {
            (
                lines.push(t.init_cid@ + ".mp4  init("@ + t.track_type@ + ")"@),
                seen.push(t.init_cid@),
            )
        }
    }
}

/// Then the flat MP4s among the first `n` entries, each once.
pub open spec fn blob_lines(
    start: (Seq<Seq<char>>, Seq<Seq<char>>),
    es: Seq<TrackEntry>,
    n: int,
) -> (Seq<Seq<char>>, Seq<Seq<char>>)
    decreases n,
{
    if n <= 0 {
        start
    } else {
        let (lines, seen) = blob_lines(start, es, n - 1);
        let t = es[n - 1].track;
        if seen.contains(t.blob_cid@) {
            (lines, seen)
        } else {
            (
                lines.push(
                    t.blob_cid@ + ".mp4  blob("@ + decimal(t.blob_size as nat) + " bytes)"@,
                ),
                seen.push(t.blob_cid@),
            )
        }
    }
}

/// Lists what was written, each identifier once, init segments before flat MP4s.
pub fn written_lines(entries: &[TrackEntry]) -> (r: Vec<String>)
    ensures
        texts(r@) == blob_lines(
            init_lines(entries@, entries@.len() as int),
            entries@,
            entries@.len() as int,
        ).0,
{
    let mut lines: Vec<String> = Vec::new();
    let mut seen: Vec<String> = Vec::new();
    assert(texts(lines@) =~= seq![]);
    assert(texts(seen@) =~= seq![]);
    let mut i: usize = 0;
    while i < entries.len()
        invariant
            i <= entries@.len(),
            (texts(lines@), texts(seen@)) == init_lines(entries@, i as int),
        decreases entries@.len() - i,
    {
        let t = &entries[i].track;
        if !has_text(&seen, &t.init_cid) {
            let ghost before = (lines@, seen@);
            let mut line = t.init_cid.clone();
            line.push_str(".mp4  init(");
            line.push_str(t.track_type.as_str());
            line.push_str(")");
            lines.push(line);
            seen.push(t.init_cid.clone());
            assert(texts(lines@) =~= texts(before.0).push(line@));
            assert(texts(seen@) =~= texts(before.1).push(t.init_cid@));
        }
        i += 1;
    }
    let ghost start = init_lines(entries@, entries@.len() as int);
    let mut j: usize = 0;
    while j < entries.len()
        invariant
            j <= entries@.len(),
            (texts(lines@), texts(seen@)) == blob_lines(start, entries@, j as int),
        decreases entries@.len() - j,
    {
        let t = &entries[j].track;
        if !has_text(&seen, &t.blob_cid) {
            let ghost before = (lines@, seen@);
            let mut line = t.blob_cid.clone();
            line.push_str(".mp4  blob(");
            push_decimal(&mut line, t.blob_size);
            line.push_str(" bytes)");
            lines.push(line);
            seen.push(t.blob_cid.clone());
            assert(texts(lines@) =~= texts(before.0).push(line@));
            assert(texts(seen@) =~= texts(before.1).push(t.blob_cid@));
        }
        j += 1;
    }
    lines
}

/// The different flat MP4s among the first `n` entries.
pub open spec fn distinct_blobs(es: Seq<TrackEntry>, n: int) -> Seq<Seq<char>>
    decreases n,
{
    if n <= 0 {
        seq![]
    } else {
        let seen = distinct_blobs(es, n - 1);
        let cid = es[n - 1].track.blob_cid@;
        if seen.contains(cid) {
            seen
        } else {
            seen.push(cid)
        }
    }
}

/// The line that sums up what was made.
pub fn summary_line(entries: &[TrackEntry], playlists: bool) -> (r: String)
    ensures
        r@ == "  "@ + decimal(entries@.len()) + " tracks, "@ + decimal(
            distinct_blobs(entries@, entries@.len() as int).len(),
        ) + " blobs"@ + (if playlists {
            " + static playlists"@
        } else {
            ""@
        }),
{
    let mut seen: Vec<String> = Vec::new();
    assert(texts(seen@) =~= seq![]);
    let mut i: usize = 0;
    while i < entries.len()
        invariant
            i <= entries@.len(),
            texts(seen@) == distinct_blobs(entries@, i as int),
        decreases entries@.len() - i,
    {
        let cid = &entries[i].track.blob_cid;
        if !has_text(&seen, cid) {
            let ghost before = seen@;
            seen.push(cid.clone());
            assert(texts(seen@) =~= texts(before).push(cid@));
        }
        i += 1;
    }
    let mut out = "  ".to_string();
    push_decimal(&mut out, entries.len() as u64);
    out.push_str(" tracks, ");
    push_decimal(&mut out, seen.len() as u64);
    out.push_str(" blobs");
    out.push_str(
        if playlists {
            " + static playlists"
        } else {
            ""
        },
    );
    out
}

} // verus!
