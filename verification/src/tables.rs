//! What the sample tables say: where in a track's bytes each sample lies, and what the
//! fragments tell of it.

use vstd::prelude::*;

use crate::boxes::{be32, box_at, BoxSpan, MDAT, MOOF};
use crate::moof::{
    index_from, index_start, indexed, parsed_moof, readable_moof, with_moof, FragmentView, IndexView,
    RunEntry,
};
use crate::roundtrip::{lemma_box_shift};
use crate::segment::{
    appended, gathered, gop_of, gops, groups, live, no_samples, sat32, sat64, BufView,
    FrameView, GopView, SamplesView,
};
use crate::tracks::ascending;

verus! {

/// The frames of the track `tid` among `fs`, in order.
pub open spec fn track_frames(fs: Seq<FrameView>, tid: u32) -> Seq<FrameView>
    decreases fs.len(),
{
    if fs.len() == 0 {
        seq![]
    } else if fs.last().track_id == tid {
        track_frames(fs.drop_last(), tid).push(fs.last())
    } else {
        track_frames(fs.drop_last(), tid)
    }
}

/// The bytes of the frames `fs`, joined.
pub open spec fn frames_bytes(fs: Seq<FrameView>) -> Seq<u8>
    decreases fs.len(),
{
    if fs.len() == 0 {
        seq![]
    } else {
        frames_bytes(fs.drop_last()) + fs.last().data
    }
}

/// How many ticks the frames `fs` last together.
pub open spec fn frames_ticks(fs: Seq<FrameView>) -> int
    decreases fs.len(),
{
    if fs.len() == 0 {
        0
    } else {
        frames_ticks(fs.drop_last()) + fs.last().duration
    }
}

/// The `mdat` box of a frame, which follows its `moof`.
pub open spec fn sample_box(f: FrameView) -> BoxSpan {
    box_at(f.data, f.moof_size as int)->Ok_0
}

/// Whether the bytes of the frame `f` are a `moof` box of the size that it tells, and then
/// an `mdat` box with the short header around as many bytes as its sample has.
pub open spec fn is_framed(f: FrameView) -> bool {
    &&& box_at(f.data, 0) matches Ok(m) && m.kind == MOOF && m.end == f.moof_size
    &&& box_at(f.data, f.moof_size as int) matches Ok(d) && {
        &&& d.kind == MDAT
        &&& d.end == f.data.len()
        &&& d.body == f.moof_size + 8
        &&& d.end - d.body == f.size
    }
}

/// The encoded sample of a frame: the payload of its `mdat` box.
pub open spec fn payload(f: FrameView) -> Seq<u8> {
    f.data.subrange(sample_box(f).body, sample_box(f).end)
}

/// Whether `data` has the bytes `part` from `at` on.
pub open spec fn has_at(data: Seq<u8>, at: int, part: Seq<u8>) -> bool {
    0 <= at && at + part.len() <= data.len() && data.subrange(at, at + part.len()) == part
}

/// Whether the table `s` of a track with the bytes `data` is that of the frames `fs`: one
/// row for each, in order, with what the frame says of its sample, and with the offset at
/// which the sample itself is found in the bytes. The sync samples are numbered from 1.
pub open spec fn tabled(s: SamplesView, data: Seq<u8>, fs: Seq<FrameView>) -> bool {
    &&& s.durations.len() == fs.len()
    &&& s.sizes.len() == fs.len()
    &&& s.cts_offsets.len() == fs.len()
    &&& s.offsets.len() == fs.len()
    &&& forall|i: int|
        #![trigger fs[i]]
        0 <= i < fs.len() ==> {
            &&& s.durations[i] == fs[i].duration
            &&& s.sizes[i] == fs[i].size
            &&& s.cts_offsets[i] == fs[i].cts_offset
            &&& is_framed(fs[i]) ==> s.sizes[i] == payload(fs[i]).len() && has_at(
                data,
                s.offsets[i] as int,
                payload(fs[i]),
            )
        }
    &&& fs.len() <= u32::MAX ==> ascending(s.sync_indices) && forall|n: u32| #[trigger]
        s.sync_indices.contains(n) == (1 <= n <= fs.len() && fs[n - 1].is_sync)
}

/// Whether the GOP `g` says of the track `tid` what its frames `fs` do.
pub open spec fn tells_of(g: GopView, tid: u32, fs: Seq<FrameView>) -> bool {
    &&& fs.len() > 0
    &&& g.tracks.contains_key(tid) && g.tracks[tid] == frames_bytes(fs)
    &&& g.durations.contains_key(tid) && g.durations[tid] == sat64(frames_ticks(fs))
    &&& g.sample_counts.contains_key(tid) && g.sample_counts[tid] == fs.len() as u32
    &&& g.first_decode_times.contains_key(tid) && g.first_decode_times[tid] == fs[0].decode_time
    &&& g.samples.contains_key(tid) && tabled(g.samples[tid], g.tracks[tid], fs)
}

/// What gathering the frames `fs`, all of one track, leaves.
spec fn filed(fs: Seq<FrameView>) -> BufView
    decreases fs.len(),
{
    if fs.len() == 0 {
        BufView { data: seq![], duration: 0, samples: no_samples(), first_decode_time: 0 }
    } else if fs.len() == 1 {
        appended(
            BufView {
                data: seq![],
                duration: 0,
                samples: no_samples(),
                first_decode_time: fs[0].decode_time,
            },
            fs[0],
        )
    } else {
        appended(filed(fs.drop_last()), fs.last())
    }
}

proof fn lemma_filed(fs: Seq<FrameView>, tid: u32)
    ensures
        gathered(fs).contains_key(tid) == (track_frames(fs, tid).len() > 0),
        gathered(fs).contains_key(tid) ==> gathered(fs)[tid] == filed(track_frames(fs, tid)),
    decreases fs.len(),
{
    if fs.len() > 0 {
        let before = fs.drop_last();
        lemma_filed(before, tid);
        if fs.last().track_id == tid {
            let old_frames = track_frames(before, tid);
            let all = old_frames.push(fs.last());
            assert(all.drop_last() =~= old_frames);
            if old_frames.len() == 0 {
                assert(all[0] == fs.last());
            }
        }
    }
}

proof fn lemma_contains_push(v: Seq<u32>, x: u32, n: u32)
    ensures
        v.push(x).contains(n) == (v.contains(n) || n == x),
{
    let more = v.push(x);
    if v.contains(n) {
        assert(more[v.index_of(n)] == n);
    }
    if n == x {
        assert(more[v.len() as int] == n);
    }
    if more.contains(n) && n != x {
        assert(v[more.index_of(n)] == n);
    }
}

/// One more row of a table.
proof fn lemma_tabled_more(b: BufView, fs: Seq<FrameView>, f: FrameView)
    requires
        tabled(b.samples, b.data, fs),
        b.data.len() + f.data.len() <= u64::MAX,
    ensures
        tabled(appended(b, f).samples, appended(b, f).data, fs.push(f)),
{
    let s = b.samples;
    let t = appended(b, f).samples;
    let data = appended(b, f).data;
    let all = fs.push(f);
    let n = fs.len() as int;
    assert forall|i: int|
        #![trigger all[i]]
        0 <= i < all.len() implies {
        &&& t.durations[i] == all[i].duration
        &&& t.sizes[i] == all[i].size
        &&& t.cts_offsets[i] == all[i].cts_offset
        &&& is_framed(all[i]) ==> t.sizes[i] == payload(all[i]).len() && has_at(
            data,
            t.offsets[i] as int,
            payload(all[i]),
        )
    } by {
        if i < n {
            assert(all[i] == fs[i]);
            if is_framed(fs[i]) {
                let at = s.offsets[i] as int;
                let p = payload(fs[i]);
                assert(has_at(b.data, at, p));
                assert(data.subrange(at, at + p.len()) =~= b.data.subrange(at, at + p.len()));
            }
        } else if is_framed(f) {
            let at = b.data.len() + sample_box(f).body;
            assert(t.offsets[n] == at);
            assert(data.subrange(at, at + payload(f).len()) =~= payload(f));
        }
    }
    if all.len() <= u32::MAX {
        let sync = t.sync_indices;
        assert forall|x: u32| #[trigger] sync.contains(x) == (1 <= x <= all.len() && all[x
            - 1].is_sync) by {
            lemma_contains_push(s.sync_indices, (n + 1) as u32, x);
            assert(s.sync_indices.contains(x) == (1 <= x <= fs.len() && fs[x - 1].is_sync));
        }
        assert forall|i: int, j: int| 0 <= i < j < sync.len() implies #[trigger] sync[i]
            < #[trigger] sync[j] by {
            if j < s.sync_indices.len() {
                assert(s.sync_indices[i] < s.sync_indices[j]);
            } else {
                assert(s.sync_indices.contains(s.sync_indices[i]));
            }
        }
    }
}

proof fn lemma_filed_is_tabled(fs: Seq<FrameView>)
    requires
        fs.len() > 0,
        frames_bytes(fs).len() <= u64::MAX,
    ensures
        filed(fs).data == frames_bytes(fs),
        filed(fs).duration == sat64(frames_ticks(fs)),
        frames_ticks(fs) >= 0,
        filed(fs).first_decode_time == fs[0].decode_time,
        tabled(filed(fs).samples, filed(fs).data, fs),
    decreases fs.len(),
{
    let before = fs.drop_last();
    let f = fs.last();
    assert(fs =~= before.push(f));
    if fs.len() == 1 {
        let b = BufView {
            data: seq![],
            duration: 0,
            samples: no_samples(),
            first_decode_time: f.decode_time,
        };
        assert(before =~= seq![]);
        assert(frames_bytes(before) =~= seq![]);
        assert(frames_ticks(before) == 0);
        assert(b.data + f.data =~= f.data);
        assert(frames_bytes(fs) =~= f.data);
        assert forall|n: u32| #[trigger] b.samples.sync_indices.contains(n) == (1 <= n
            <= before.len() && before[n - 1].is_sync) by {
        }
        lemma_tabled_more(b, before, f);
    } else {
        lemma_filed_is_tabled(before);
        lemma_tabled_more(filed(before), before, f);
    }
}

/// The group that the GOP `j` of the groups `gs` is made of.
proof fn lemma_gop_group(
    gs: Seq<Seq<FrameView>>,
    scales: Map<u32, u32>,
    video: Seq<u32>,
    j: int,
) -> (k: int)
    requires
        0 <= j < gops(gs, scales, video).len(),
    ensures
        0 <= k < gs.len(),
        gop_of(gathered(gs[k]), scales, video, sat32(k + 1)) == Some(gops(gs, scales, video)[j]),
    decreases gs.len(),
{
    let before = gs.drop_last();
    let done = gops(before, scales, video);
    if j < done.len() {
        lemma_gop_group(before, scales, video, j)
    } else {
        gs.len() - 1
    }
}

/// A GOP says of each of its tracks what the frames of the track in its group do: its
/// bytes are theirs, and its table has a row for each of them, under which the sample
/// itself is found in the bytes. With `k` comes the group; it gives the GOP its number.
pub proof fn law_tables_are_those_of_the_frames(
    fs: Seq<FrameView>,
    scales: Map<u32, u32>,
    video: Seq<u32>,
    j: int,
    tid: u32,
) -> (k: int)
    requires
        0 <= j < gops(groups(fs, scales, video), scales, video).len(),
        gops(groups(fs, scales, video), scales, video)[j].tracks.contains_key(tid),
        gops(groups(fs, scales, video), scales, video)[j].tracks[tid].len() <= u64::MAX,
    ensures
        0 <= k < groups(fs, scales, video).len(),
        gops(groups(fs, scales, video), scales, video)[j].number == sat32(k + 1),
        tells_of(
            gops(groups(fs, scales, video), scales, video)[j],
            tid,
            track_frames(groups(fs, scales, video)[k], tid),
        ),
{
    let gs = groups(fs, scales, video);
    let k = lemma_gop_group(gs, scales, video, j);
    let g = gops(gs, scales, video)[j];
    let frames = track_frames(gs[k], tid);
    lemma_filed(gs[k], tid);
    let bufs = gathered(gs[k]);
    assert(live(bufs).contains(tid));
    assert(g.tracks[tid] == bufs[tid].data);
    lemma_filed_data(frames);
    lemma_filed_is_tabled(frames);
    assert(bufs[tid].samples.durations.len() == frames.len());
    k
}

proof fn lemma_filed_data(fs: Seq<FrameView>)
    requires
        fs.len() > 0,
    ensures
        filed(fs).data == frames_bytes(fs),
    decreases fs.len(),
{
    let before = fs.drop_last();
    if fs.len() == 1 {
        assert(frames_bytes(before) =~= seq![]);
        assert(frames_bytes(fs) =~= fs[0].data);
        assert(Seq::<u8>::empty() + fs[0].data =~= fs[0].data);
    } else {
        lemma_filed_data(before);
    }
}

/// Where the `moof` boxes of `data` from `pos` on begin and end.
pub open spec fn moofs_from(data: Seq<u8>, pos: int) -> Seq<(int, int)>
    decreases data.len() - pos,
{
    if pos + 8 > data.len() {
        seq![]
    } else {
        match box_at(data, pos) {
            Err(_) => seq![],
            Ok(b) => if b.kind == MOOF {
                seq![(pos, b.end)] + moofs_from(data, b.end)
            } else {
                moofs_from(data, b.end)
            },
        }
    }
}

/// Whether `x` is the number that a run entry gives, or that its track fragment gives in
/// its place; 0 where neither does.
pub open spec fn is_given(x: u32, entry: Option<u32>, fragment: Option<u32>) -> bool {
    &&& entry is Some ==> x == entry->Some_0
    &&& entry is None && fragment is Some ==> x == fragment->Some_0
    &&& entry is None && fragment is None ==> x == 0
}

/// Whether the flags `flags` leave a sample one that decoding can start at: the flag for
/// "not a sync sample" is not set.
pub open spec fn allows_start(flags: u32) -> bool {
    flags & 0x0001_0000u32 == 0
}

/// Whether row `i` of the table `s` says what the run entry `e` of the track fragment `f`
/// does.
pub open spec fn row_tells(s: SamplesView, i: int, e: RunEntry, f: FragmentView) -> bool {
    &&& is_given(s.durations[i], e.duration, f.default_duration)
    &&& is_given(s.sizes[i], e.size, f.default_size)
    &&& e.cts matches Some(c) ==> s.cts_offsets[i] == c
    &&& e.cts is None ==> s.cts_offsets[i] == 0
    &&& forall|flags: u32| #[trigger]
        is_given(flags, e.flags, f.default_flags) ==> s.sync_indices.contains((i + 1) as u32)
            == allows_start(flags)
}

/// Whether row `i` of the table `s` is that of the `moof` box from `span.0` to `span.1` of
/// `data`: it says what the first entry of the first run of its first track fragment does,
/// and leads to the payload of the `mdat` box behind it.
pub open spec fn row_of(s: SamplesView, i: int, data: Seq<u8>, span: (int, int)) -> bool {
    &&& parsed_moof(data.subrange(span.0, span.1)) matches Ok(fs) && {
        &&& fs.len() > 0 && fs[0].runs.len() > 0 && fs[0].runs[0].len() > 0
        &&& row_tells(s, i, fs[0].runs[0][0], fs[0])
    }
    &&& box_at(data, span.1) matches Ok(d) ==> d.body == span.1 + 8 && d.body <= u64::MAX
        ==> s.offsets[i] == d.body
}

/// Whether `s` has `n` rows.
pub open spec fn has_rows(s: SamplesView, n: int) -> bool {
    &&& s.durations.len() == n
    &&& s.sizes.len() == n
    &&& s.cts_offsets.len() == n
    &&& s.offsets.len() == n
}

/// Whether `t` begins with the rows of `s`.
spec fn keeps_rows(s: SamplesView, t: SamplesView) -> bool {
    let n = s.durations.len() as int;
    &&& n <= t.durations.len()
    &&& forall|i: int|
        #![trigger t.durations[i]]
        #![trigger t.sizes[i]]
        #![trigger t.cts_offsets[i]]
        #![trigger t.offsets[i]]
        0 <= i < n ==> t.durations[i] == s.durations[i] && t.sizes[i] == s.sizes[i]
            && t.cts_offsets[i] == s.cts_offsets[i] && t.offsets[i] == s.offsets[i]
    &&& forall|x: u32|
        x <= n ==> #[trigger] t.sync_indices.contains(x) == s.sync_indices.contains(x)
}

proof fn lemma_keeps_rows(s: SamplesView, t: SamplesView, u: SamplesView)
    requires
        keeps_rows(s, t),
        keeps_rows(t, u),
    ensures
        keeps_rows(s, u),
{
    let n = s.durations.len() as int;
    assert forall|i: int|
        #![trigger u.durations[i]]
        #![trigger u.sizes[i]]
        #![trigger u.cts_offsets[i]]
        #![trigger u.offsets[i]]
        0 <= i < n implies u.durations[i] == s.durations[i] && u.sizes[i] == s.sizes[i]
        && u.cts_offsets[i] == s.cts_offsets[i] && u.offsets[i] == s.offsets[i] by {
        assert(u.durations[i] == t.durations[i]);
        assert(t.durations[i] == s.durations[i]);
    }
    assert forall|x: u32| x <= n implies #[trigger] u.sync_indices.contains(x)
        == s.sync_indices.contains(x) by {
        assert(t.sync_indices.contains(x) == s.sync_indices.contains(x));
    }
}

/// Whether the sync samples of `s` are numbered within its rows.
spec fn sync_within(s: SamplesView) -> bool {
    forall|x: u32| #[trigger] s.sync_indices.contains(x) ==> 1 <= x <= s.durations.len()
}

proof fn lemma_row_added(acc: IndexView, fs: Seq<FragmentView>, data: Seq<u8>, span: (int, int))
    requires
        0 <= span.0 <= span.1 <= data.len(),
        with_moof(acc, fs, span.1) is Ok,
        parsed_moof(data.subrange(span.0, span.1)) == Ok::<Seq<FragmentView>, Seq<char>>(fs),
        has_rows(acc.samples, acc.samples.durations.len() as int),
        acc.samples.durations.len() < u32::MAX,
        sync_within(acc.samples),
    ensures
        ({
            let next = with_moof(acc, fs, span.1)->Ok_0;
            let n = acc.samples.durations.len() as int;
            &&& has_rows(next.samples, n + 1)
            &&& keeps_rows(acc.samples, next.samples)
            &&& sync_within(next.samples)
            &&& row_of(next.samples, n, data, span)
            &&& next.track_id == fs[0].track_id
            &&& next.first == if acc.first is Some {
                acc.first
            } else {
                Some(
                    match fs[0].base_decode_time {
                        Some(t) => t,
                        None => 0,
                    },
                )
            }
        }),
{
    let next = with_moof(acc, fs, span.1)->Ok_0;
    let n = acc.samples.durations.len() as int;
    let sync = acc.samples.sync_indices;
    assert forall|x: u32| #[trigger] next.samples.sync_indices.contains(x) implies sync.contains(x)
        || x == (n + 1) as u32 by {
        lemma_contains_push(sync, (n + 1) as u32, x);
    }
    assert forall|x: u32| x <= n implies #[trigger] next.samples.sync_indices.contains(x)
        == sync.contains(x) by {
        lemma_contains_push(sync, (n + 1) as u32, x);
    }
    lemma_contains_push(sync, (n + 1) as u32, (n + 1) as u32);
}

proof fn lemma_row_kept(s: SamplesView, t: SamplesView, i: int, data: Seq<u8>, span: (int, int))
    requires
        keeps_rows(s, t),
        0 <= i < s.durations.len(),
        s.durations.len() <= u32::MAX,
        row_of(s, i, data, span),
    ensures
        row_of(t, i, data, span),
{
    assert(t.durations[i] == s.durations[i]);
    let x = (i + 1) as u32;
    assert(t.sync_indices.contains(x) == s.sync_indices.contains(x));
}

/// The rows that the index of `data` from `pos` on adds to `acc`.
proof fn lemma_rows(data: Seq<u8>, pos: int, acc: IndexView)
    requires
        0 <= pos,
        index_from(data, pos, acc) is Ok,
        has_rows(acc.samples, acc.samples.durations.len() as int),
        sync_within(acc.samples),
        acc.samples.durations.len() + moofs_from(data, pos).len() <= u32::MAX,
    ensures
        ({
            let r = index_from(data, pos, acc)->Ok_0;
            let n = acc.samples.durations.len() as int;
            let spans = moofs_from(data, pos);
            &&& has_rows(r.samples, n + spans.len())
            &&& keeps_rows(acc.samples, r.samples)
            &&& sync_within(r.samples)
            &&& forall|i: int|
                0 <= i < spans.len() ==> row_of(r.samples, n + i, data, #[trigger] spans[i])
            &&& acc.first is None ==> spans.len() > 0 && (parsed_moof(
                data.subrange(spans[0].0, spans[0].1),
            ) matches Ok(fs) && (fs[0].base_decode_time matches Some(t) ==> r.first == Some(t)) && (
            fs[0].base_decode_time is None ==> r.first == Some(0u64)))
            &&& acc.first is Some ==> r.first == acc.first
            &&& spans.len() == 0 ==> r.track_id == acc.track_id
            &&& spans.len() > 0 ==> (parsed_moof(
                data.subrange(spans.last().0, spans.last().1),
            ) matches Ok(fs) && r.track_id == fs[0].track_id)
        }),
    decreases data.len() - pos,
{
    if pos + 8 <= data.len() {
        let b = box_at(data, pos)->Ok_0;
        let spans = moofs_from(data, pos);
        let r = index_from(data, pos, acc)->Ok_0;
        let n = acc.samples.durations.len() as int;
        if b.kind == MOOF {
            let span = (pos, b.end);
            let fs = parsed_moof(data.subrange(pos, b.end))->Ok_0;
            let rest = moofs_from(data, b.end);
            assert(spans =~= seq![span] + rest);
            lemma_row_added(acc, fs, data, span);
            let next = with_moof(acc, fs, b.end)->Ok_0;
            lemma_rows(data, b.end, next);
            lemma_keeps_rows(acc.samples, next.samples, r.samples);
            lemma_row_kept(next.samples, r.samples, n, data, span);
            assert forall|i: int| 0 <= i < spans.len() implies row_of(
                r.samples,
                n + i,
                data,
                #[trigger] spans[i],
            ) by {
                if i > 0 {
                    assert(spans[i] == rest[i - 1]);
                    assert(row_of(r.samples, n + 1 + (i - 1), data, rest[i - 1]));
                }
            }
            assert(spans[0] == span);
            if rest.len() > 0 {
                assert(spans.last() == rest.last());
            }
        } else {
            lemma_rows(data, b.end, acc);
        }
    }
}

/// The index of a segment has one row for each of its `moof` boxes, in order. Whatever the
/// run entry of a sample gives (its composition offset, duration, size and flags) is what
/// its row says; what it leaves out is what its track fragment gives, or nothing. The
/// offset leads to the payload behind the `moof`.
pub proof fn law_index_says_what_the_runs_do(data: Seq<u8>)
    requires
        indexed(data) is Ok,
        moofs_from(data, 0).len() <= u32::MAX,
    ensures
        ({
            let x = indexed(data)->Ok_0;
            let spans = moofs_from(data, 0);
            &&& spans.len() > 0
            &&& has_rows(x.samples, spans.len() as int)
            &&& forall|i: int|
                0 <= i < spans.len() ==> row_of(x.samples, i, data, #[trigger] spans[i])
            &&& forall|n: u32| #[trigger]
                x.samples.sync_indices.contains(n) ==> 1 <= n <= spans.len()
            &&& parsed_moof(data.subrange(spans[0].0, spans[0].1)) matches Ok(fs) && (
            fs[0].base_decode_time matches Some(t) ==> x.first == Some(t)) && (
            fs[0].base_decode_time is None ==> x.first == Some(0u64))
            &&& parsed_moof(data.subrange(spans.last().0, spans.last().1)) matches Ok(fs)
                && x.track_id == fs[0].track_id
        }),
{
    lemma_rows(data, 0, index_start());
    let x = indexed(data)->Ok_0;
    let spans = moofs_from(data, 0);
    assert forall|i: int| 0 <= i < spans.len() implies row_of(
        x.samples,
        i,
        data,
        #[trigger] spans[i],
    ) by {
        assert(row_of(x.samples, 0 + i, data, spans[i]));
    }
}

/// The `moof` box of a frame.
pub open spec fn moof_of(f: FrameView) -> Seq<u8> {
    f.data.take(f.moof_size as int)
}

/// Whether the frame `f` tells what its own `moof` does: all values of its one sample are
/// in the run entry, as the canonical form has it.
pub open spec fn tells_its_moof(f: FrameView) -> bool {
    &&& is_framed(f)
    &&& be32(f.data, 0) != 0
    &&& be32(f.data, f.moof_size as int) != 0
    &&& readable_moof(moof_of(f))
    &&& parsed_moof(moof_of(f)) matches Ok(fs) && {
        &&& fs.len() > 0 && fs[0].runs.len() > 0 && fs[0].runs[0].len() > 0
        &&& fs[0].track_id == f.track_id
        &&& fs[0].base_decode_time == Some(f.decode_time)
        &&& fs[0].runs[0][0].duration == Some(f.duration)
        &&& fs[0].runs[0][0].size == Some(f.size)
        &&& fs[0].runs[0][0].cts == Some(f.cts_offset)
        &&& fs[0].runs[0][0].flags matches Some(flags) && allows_start(flags) == f.is_sync
    }
}

proof fn lemma_frames_joined(a: Seq<FrameView>, b: Seq<FrameView>)
    ensures
        frames_bytes(a + b) == frames_bytes(a) + frames_bytes(b),
    decreases b.len(),
{
    if b.len() == 0 {
        assert(a + b =~= a);
        assert(frames_bytes(a) + frames_bytes(b) =~= frames_bytes(a));
    } else {
        lemma_frames_joined(a, b.drop_last());
        assert((a + b).drop_last() =~= a + b.drop_last());
        assert(frames_bytes(a + b) =~= frames_bytes(a) + frames_bytes(b));
    }
}

/// The index takes a frame as its table does.
proof fn lemma_index_frame(a: Seq<u8>, f: FrameView, c: Seq<u8>, acc: IndexView)
    requires
        tells_its_moof(f),
        a.len() + f.data.len() <= u64::MAX,
    ensures
        index_from(a + f.data + c, a.len() as int, acc) == index_from(
            a + f.data + c,
            (a.len() + f.data.len()) as int,
            IndexView {
                track_id: f.track_id,
                samples: appended(
                    BufView { data: a, duration: 0, samples: acc.samples, first_decode_time: 0 },
                    f,
                ).samples,
                first: if acc.first is Some {
                    acc.first
                } else {
                    Some(f.decode_time)
                },
            },
        ),
{
    let s = a + f.data + c;
    let n = a.len() as int;
    let end = n + f.moof_size;
    lemma_box_shift(a, f.data, c, 0);
    lemma_box_shift(a, f.data, c, f.moof_size as int);
    assert(s.subrange(n, end) =~= moof_of(f));
    let fs = parsed_moof(moof_of(f))->Ok_0;
    let next = with_moof(acc, fs, end)->Ok_0;
    assert(index_from(s, n, acc) == index_from(s, end, next));
    assert(index_from(s, end, next) == index_from(s, n + f.data.len(), next));
}

proof fn lemma_index_frames(fs: Seq<FrameView>, k: int)
    requires
        forall|i: int| 0 <= i < fs.len() ==> tells_its_moof(#[trigger] fs[i]),
        forall|i: int| 0 <= i < fs.len() ==> (#[trigger] fs[i]).track_id == fs[0].track_id,
        frames_bytes(fs).len() <= u64::MAX,
        0 < k <= fs.len(),
    ensures
        index_from(
            frames_bytes(fs),
            frames_bytes(fs.take(k)).len() as int,
            IndexView {
                track_id: fs[0].track_id,
                samples: filed(fs.take(k)).samples,
                first: Some(fs[0].decode_time),
            },
        ) == Ok::<IndexView, Seq<char>>(
            IndexView {
                track_id: fs[0].track_id,
                samples: filed(fs).samples,
                first: Some(fs[0].decode_time),
            },
        ),
    decreases fs.len() - k,
{
    if k == fs.len() {
        assert(fs.take(k) =~= fs);
    } else {
        lemma_index_frames(fs, k + 1);
        let before = fs.take(k);
        let f = fs[k];
        assert(tells_its_moof(f));
        let rest = fs.skip(k + 1);
        assert(fs.take(k + 1) =~= before.push(f));
        assert(before.push(f).drop_last() =~= before);
        assert(fs =~= before.push(f) + rest);
        lemma_frames_joined(before.push(f), rest);
        let a = frames_bytes(before);
        assert(frames_bytes(fs) == a + f.data + frames_bytes(rest));
        let acc = IndexView {
            track_id: fs[0].track_id,
            samples: filed(before).samples,
            first: Some(fs[0].decode_time),
        };
        lemma_index_frame(a, f, frames_bytes(rest), acc);
        lemma_filed_data(before);
        assert(filed(fs.take(k + 1)).samples == appended(
            BufView { data: a, duration: 0, samples: acc.samples, first_decode_time: 0 },
            f,
        ).samples);
        assert(f.track_id == fs[0].track_id);
    }
}

proof fn lemma_frames_are_indexed(fs: Seq<FrameView>)
    requires
        fs.len() > 0,
        forall|i: int| 0 <= i < fs.len() ==> tells_its_moof(#[trigger] fs[i]),
        forall|i: int| 0 <= i < fs.len() ==> (#[trigger] fs[i]).track_id == fs[0].track_id,
        frames_bytes(fs).len() <= u64::MAX,
    ensures
        indexed(frames_bytes(fs)) == Ok::<IndexView, Seq<char>>(
            IndexView {
                track_id: fs[0].track_id,
                samples: filed(fs).samples,
                first: Some(fs[0].decode_time),
            },
        ),
{
    let f = fs[0];
    assert(tells_its_moof(f));
    let one = fs.take(1);
    let rest = fs.skip(1);
    let none: Seq<u8> = seq![];
    assert(one =~= seq![f]);
    assert(fs =~= one + rest);
    lemma_frames_joined(one, rest);
    assert(one.drop_last() =~= seq![]);
    assert(frames_bytes(one.drop_last()) =~= none);
    assert(frames_bytes(one) =~= f.data);
    assert(frames_bytes(fs) =~= none + f.data + frames_bytes(rest));
    lemma_index_frame(none, f, frames_bytes(rest), index_start());
    lemma_index_frames(fs, 1);
}

proof fn lemma_track_frames_alike(fs: Seq<FrameView>, tid: u32)
    ensures
        forall|i: int|
            0 <= i < track_frames(fs, tid).len() ==> (#[trigger] track_frames(fs, tid)[i]).track_id
                == tid,
    decreases fs.len(),
{
    if fs.len() > 0 {
        lemma_track_frames_alike(fs.drop_last(), tid);
        let before = track_frames(fs.drop_last(), tid);
        assert forall|i: int| 0 <= i < track_frames(fs, tid).len() implies (
        #[trigger] track_frames(fs, tid)[i]).track_id == tid by {
            if i < before.len() {
                assert(track_frames(fs, tid)[i] == before[i]);
            }
        }
    }
}

/// The samples of a GOP's track are those that are read out of the track's bytes, as is the
/// decode time of the first: the frames of the track telling what their own `moof` boxes
/// do.
pub proof fn law_tables_are_read_back(
    fs: Seq<FrameView>,
    scales: Map<u32, u32>,
    video: Seq<u32>,
    j: int,
    tid: u32,
)
    requires
        0 <= j < gops(groups(fs, scales, video), scales, video).len(),
        gops(groups(fs, scales, video), scales, video)[j].tracks.contains_key(tid),
        gops(groups(fs, scales, video), scales, video)[j].tracks[tid].len() <= u64::MAX,
        forall|k: int, i: int|
            0 <= k < groups(fs, scales, video).len() && 0 <= i < track_frames(
                groups(fs, scales, video)[k],
                tid,
            ).len() ==> tells_its_moof(
                #[trigger] track_frames(groups(fs, scales, video)[k], tid)[i],
            ),
    ensures
        ({
            let g = gops(groups(fs, scales, video), scales, video)[j];
            indexed(g.tracks[tid]) == Ok::<IndexView, Seq<char>>(
                IndexView {
                    track_id: tid,
                    samples: g.samples[tid],
                    first: Some(g.first_decode_times[tid]),
                },
            )
        }),
{
    let gs = groups(fs, scales, video);
    let k = lemma_gop_group(gs, scales, video, j);
    let g = gops(gs, scales, video)[j];
    let frames = track_frames(gs[k], tid);
    lemma_filed(gs[k], tid);
    let bufs = gathered(gs[k]);
    assert(live(bufs).contains(tid));
    assert(g.tracks[tid] == bufs[tid].data);
    lemma_filed_data(frames);
    lemma_track_frames_alike(gs[k], tid);
    lemma_frames_are_indexed(frames);
    lemma_filed_is_tabled(frames);
}

} // verus!
