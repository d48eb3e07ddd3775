//! How a stream of files is cut, beside a single file.

use vstd::prelude::*;

use crate::boxes::{be32, box_at, MDAT, MOOF, MOOV};
use crate::concat::{
    after_frames, cut_event, payload_of, prefixed, take_box, Clock, ConcatView, EventView,
    Exchange, StreamView,
};
use crate::envelopes::sized_box;
use crate::segment::{
    begins_group, frames_view, gathered, gop_of, gops, groups, has_video_key, is_video_key, live,
    map_over, recorded, sat32, second_begun, track_scales, video_ids, FrameView, GopView,
};

verus! {

/// The event of the GOP `g` of a file with the `uuid` box `uuid`.
pub open spec fn cut_of(g: GopView, uuid: Option<Seq<u8>>) -> EventView {
    match uuid {
        Some(u) => EventView::Segment(prefixed(g, u)),
        None => EventView::Segment(g),
    }
}

/// The events of the GOPs in `gs`.
pub open spec fn cuts_of(gs: Seq<GopView>, uuid: Option<Seq<u8>>) -> Seq<EventView> {
    gs.map_values(|g: GopView| cut_of(g, uuid))
}

/// Whether `st` is at the begin of a stream: its first file is open, and no frame has come.
pub open spec fn is_fresh(st: ConcatView) -> bool {
    &&& st.stream matches Some(t) && !t.seen_key && t.begun is None
    &&& st.bufs == Map::<u32, crate::segment::BufView>::empty()
    &&& st.number == 0
}

/// Whether every frame has bytes.
pub open spec fn all_filled(fs: Seq<FrameView>) -> bool {
    forall|i: int| 0 <= i < fs.len() ==> (#[trigger] fs[i]).data.len() > 0
}

proof fn lemma_gathered_lives(fs: Seq<FrameView>)
    requires
        fs.len() > 0,
        fs.last().data.len() > 0,
    ensures
        live(gathered(fs)) != Set::<u32>::empty(),
{
    let f = fs.last();
    assert(gathered(fs)[f.track_id].data.len() > 0);
    assert(live(gathered(fs)).contains(f.track_id));
}

/// Where a run over the frames `fs` stands, the groups being `gs`.
spec fn stands(
    st: ConcatView,
    s: ConcatView,
    evs: Seq<EventView>,
    fs: Seq<FrameView>,
    gs: Seq<Seq<FrameView>>,
) -> bool {
    &&& gs.len() > 0
    &&& fs.len() > 0 ==> gs.last().len() > 0 && gs.last().last() == fs.last()
    &&& fs.len() == 0 ==> gs.len() == 1 && gs.last().len() == 0
    &&& s.stream matches Some(t) && t.seen_key == has_video_key(fs, st.video) && t.begun
        == second_begun(gs.last(), st.scales)
    &&& s.bufs == gathered(gs.last())
    &&& s.scales == st.scales && s.video == st.video && s.uuid == st.uuid
    &&& s.number == sat32(gs.len() - 1)
    &&& evs == cuts_of(gops(gs.drop_last(), st.scales, st.video), st.uuid)
}

proof fn lemma_stands(st: ConcatView, fs: Seq<FrameView>)
    requires
        is_fresh(st),
        all_filled(fs),
    ensures
        stands(
            st,
            after_frames(st, fs).0,
            after_frames(st, fs).1,
            fs,
            groups(fs, st.scales, st.video),
        ),
    decreases fs.len(),
{
    let (s2, evs2) = after_frames(st, fs);
    let gs2 = groups(fs, st.scales, st.video);
    if fs.len() == 0 {
        assert(gs2.drop_last() =~= seq![]);
        assert(cuts_of(gops(gs2.drop_last(), st.scales, st.video), st.uuid) =~= seq![]);
        assert(!has_video_key(fs, st.video));
    } else {
        let rest = fs.drop_last();
        let f = fs.last();
        assert forall|i: int| 0 <= i < rest.len() implies (#[trigger] rest[i]).data.len() > 0 by {
            assert(rest[i] == fs[i]);
        }
        lemma_stands(st, rest);
        let (s, evs) = after_frames(st, rest);
        let gs = groups(rest, st.scales, st.video);
        assert(has_video_key(fs, st.video) == (has_video_key(rest, st.video) || is_video_key(
            f,
            st.video,
        ))) by {
            if has_video_key(rest, st.video) {
                let i = choose|i: int|
                    0 <= i < rest.len() && is_video_key(#[trigger] rest[i], st.video);
                assert(is_video_key(fs[i], st.video));
            }
            if is_video_key(f, st.video) {
                assert(is_video_key(fs[fs.len() - 1], st.video));
            }
            if has_video_key(fs, st.video) && !is_video_key(f, st.video) {
                let i = choose|i: int|
                    0 <= i < fs.len() && is_video_key(#[trigger] fs[i], st.video);
                assert(is_video_key(rest[i], st.video));
            }
        }
        let stream = s.stream->Some_0;
        let cuts = begins_group(f, stream.seen_key, stream.begun, s.scales, s.video);
        if cuts {
            assert(rest.len() > 0) by {
                if rest.len() == 0 {
                    assert(!has_video_key(rest, st.video));
                }
            }
            assert(gs.last().last() == rest.last());
            assert(rest.last() == fs[fs.len() - 2]);
            lemma_gathered_lives(gs.last());
            let g = gop_of(gathered(gs.last()), st.scales, st.video, sat32(gs.len() as int));
            assert(sat32(s.number + 1) == sat32(gs.len() as int));
            assert(g is Some);
            assert(gs2 == gs.push(seq![f]));
            assert(gs2.drop_last() =~= gs);
            let done = gops(gs.drop_last(), st.scales, st.video);
            assert(gops(gs, st.scales, st.video) == done.push(g->Some_0));
            assert(cut_event(s) == seq![cut_of(g->Some_0, st.uuid)]);
            assert(evs2 == evs + cut_event(s));
            assert(cuts_of(done.push(g->Some_0), st.uuid) =~= cuts_of(done, st.uuid) + seq![
                cut_of(g->Some_0, st.uuid),
            ]);
            assert(seq![f].drop_last() =~= seq![]);
            assert(gathered(seq![f]) == recorded(gathered(seq![]), f));
        } else {
            let last = gs.last().push(f);
            assert(gs2 == gs.drop_last().push(last));
            assert(gs2.drop_last() =~= gs.drop_last());
            assert(last.drop_last() =~= gs.last());
            assert(gathered(last) == recorded(gathered(gs.last()), f));
        }
    }
}

/// The first file of a stream is cut as it is cut alone: the events of its frames and of the
/// cut behind them are the GOPs of the same frames, in order and with the same numbers, with
/// the `uuid` box of the file before every track where it has one.
pub proof fn law_stream_is_cut_as_a_file(st: ConcatView, fs: Seq<FrameView>)
    requires
        is_fresh(st),
        all_filled(fs),
        fs.len() > 0,
    ensures
        after_frames(st, fs).1 + cut_event(after_frames(st, fs).0) == cuts_of(
            gops(groups(fs, st.scales, st.video), st.scales, st.video),
            st.uuid,
        ),
{
    lemma_stands(st, fs);
    let (s, evs) = after_frames(st, fs);
    let gs = groups(fs, st.scales, st.video);
    assert(fs.last() == fs[fs.len() - 1]);
    lemma_gathered_lives(gs.last());
    let g = gop_of(gathered(gs.last()), st.scales, st.video, sat32(gs.len() as int));
    assert(sat32(s.number + 1) == sat32(gs.len() as int));
    let done = gops(gs.drop_last(), st.scales, st.video);
    assert(gops(gs, st.scales, st.video) == done.push(g->Some_0));
    assert(cut_event(s) == seq![cut_of(g->Some_0, st.uuid)]);
    assert(cuts_of(done.push(g->Some_0), st.uuid) =~= cuts_of(done, st.uuid) + seq![
        cut_of(g->Some_0, st.uuid),
    ]);
}

/// What is handed on of an `mdat` box is its body, where it has the long header exactly if
/// it is too long for the short one.
pub proof fn law_payload_is_the_body(data: Seq<u8>)
    requires
        sized_box(data, MDAT),
        (be32(data, 0) == 1) == (data.len() > u32::MAX),
    ensures
        box_at(data, 0) matches Ok(b) && payload_of(data) == data.subrange(b.body, b.end),
{
    let b = box_at(data, 0)->Ok_0;
    assert(payload_of(data) =~= data.subrange(b.body, b.end));
}

/// Each `mdat` box is handed on with the `moof` box before it, the `moov` box of its file,
/// and the clocks as they were left by the one before; its payload goes with it.
pub proof fn law_clocks_go_on(
    st: ConcatView,
    first: Seq<u8>,
    a: Seq<Exchange>,
    moof: Seq<u8>,
    b: Seq<Exchange>,
    second: Seq<u8>,
    c: Seq<Exchange>,
)
    requires
        st.stream matches Some(t) && t.moof is Some,
        take_box(st, MDAT as int, first, a) is Done,
        take_box(take_box(st, MDAT as int, first, a)->Done_state, MOOF as int, moof, b) is Done,
        take_box(
            take_box(
                take_box(st, MDAT as int, first, a)->Done_state,
                MOOF as int,
                moof,
                b,
            )->Done_state,
            MDAT as int,
            second,
            c,
        ) is Done,
    ensures
        a.len() == 1 && c.len() == 1,
        a[0] matches Exchange::Mint { answer: Ok(minted), .. } && c[0] matches Exchange::Mint {
            moov: m,
            moof: f,
            payload: p,
            clocks: k,
            ..
        } && {
            &&& m == st.stream->Some_0.moov
            &&& f == moof
            &&& p == payload_of(second)
            &&& k == minted.clocks@
        },
{
    if let Exchange::Mint { answer: Ok(minted), .. } = a[0] {
        let taken = StreamView { moof: None, ..st.stream->Some_0 };
        let base = ConcatView {
            stream: Some(StreamView { clocks: minted.clocks@, ..taken }),
            ..st
        };
        lemma_frames_keep_file(base, frames_view(minted.frames@));
    }
}

proof fn lemma_frames_keep_file(st: ConcatView, fs: Seq<FrameView>)
    requires
        st.stream is Some,
    ensures
        after_frames(st, fs).0.stream matches Some(t) && t.moov == st.stream->Some_0.moov
            && t.clocks == st.stream->Some_0.clocks && t.moof == st.stream->Some_0.moof,
    decreases fs.len(),
{
    if fs.len() > 0 {
        lemma_frames_keep_file(st, fs.drop_last());
    }
}

/// A `moov` box opens its file: the tracks, their timescales and which of them are video are
/// those of its own catalog, no clock has run yet, and no keyframe has come by.
pub proof fn law_moov_opens_its_file(st: ConcatView, data: Seq<u8>, log: Seq<Exchange>)
    requires
        take_box(st, MOOV as int, data, log) is Done,
    ensures
        log.len() > 0 && (log[0] matches Exchange::Catalog(q, Ok(c)) && q == data && {
            let next = take_box(st, MOOV as int, data, log)->Done_state;
            &&& next.catalog == Some(c@)
            &&& next.video == video_ids(&c)
            &&& next.scales == map_over(Map::empty(), track_scales(&c))
            &&& next.uuid == st.pending_uuid && next.pending_uuid is None
            &&& next.envelope is None
            &&& next.stream matches Some(t) && t.moov == data && t.moof is None && !t.seen_key
                && t.begun is None && t.clocks == Map::<u32, Clock>::empty()
            &&& next.buf == st.buf
        }),
{
}

} // verus!
