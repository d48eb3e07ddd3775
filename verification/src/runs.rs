//! What holds of whole runs of a concatenator.
//!
//! A concatenator asks its caller for catalogs, init segments and frames. These laws
//! are of callers that answer the same question alike every time.

use std::collections::BTreeMap;

use vstd::prelude::*;

use crate::boxes::{FTYP, MDAT, MOOF, MOOV, UUID};
use crate::catalog::Catalog;
use crate::concat::{
    after_cut, after_frames, all_answered, answered, at_rest, awaiting_init, behind, concat_start,
    counted, counted_event, cut_event, feeds, front_box, is_envelope, leads_to,
    law_pieces_do_not_matter, lemma_front_more, lemma_steps_compose, logs_answered, next_gop,
    prefixed, step, steps, take_box, take_mdat, take_moof, take_moov, with_input, Clock, ConcatHost,
    ConcatView, EventView, Exchange, Minted, Outcome, StreamView,
};
use crate::error::{Error, ErrorView};
use crate::segment::{
    frames_view, gop_of, live, map_over, same_catalog, sat32, track_scales, video_ids, BufView,
    FrameView, GopView,
};

verus! {

/// Whether the caller was asked the same thing in `x` and in `y`.
pub open spec fn same_question(x: Exchange, y: Exchange) -> bool {
    match (x, y) {
        (Exchange::Catalog(p, _), Exchange::Catalog(q, _)) => p == q,
        (Exchange::Init(a, _), Exchange::Init(b, _)) => a@ == b@,
        (Exchange::Moof(p, _), Exchange::Moof(q, _)) => p == q,
        (
            Exchange::Mint { moov: a, moof: b, payload: c, clocks: d, answer: _ },
            Exchange::Mint { moov: p, moof: q, payload: r, clocks: t, answer: _ },
        ) => a == p && b == q && c == r && d == t,
        _ => false,
    }
}

/// Whether the caller answered alike in `x` and in `y`.
pub open spec fn same_answer(x: Exchange, y: Exchange) -> bool {
    match (x, y) {
        (Exchange::Catalog(_, a), Exchange::Catalog(_, b)) => match (a, b) {
            (Ok(p), Ok(q)) => same_catalog(p, q),
            (Err(p), Err(q)) => p@ == q@,
            _ => false,
        },
        (Exchange::Init(_, a), Exchange::Init(_, b)) => match (a, b) {
            (Ok(p), Ok(q)) => p@ == q@,
            (Err(p), Err(q)) => p@ == q@,
            _ => false,
        },
        (Exchange::Moof(_, a), Exchange::Moof(_, b)) => match (a, b) {
            (Ok(_), Ok(_)) => true,
            (Err(p), Err(q)) => p@ == q@,
            _ => false,
        },
        (Exchange::Mint { answer: a, .. }, Exchange::Mint { answer: b, .. }) => match (a, b) {
            (Ok(p), Ok(q)) => frames_view(p.frames@) == frames_view(q.frames@) && p.clocks@
                == q.clocks@,
            (Err(p), Err(q)) => p@ == q@,
            _ => false,
        },
        _ => false,
    }
}

/// Whether the caller answers the same question alike every time.
pub open spec fn answers_alike<
    O: Fn(&[u8]) -> Result<Catalog, Error>,
    I: Fn(&Catalog) -> Result<Vec<u8>, Error>,
    C: Fn(&[u8]) -> Result<(), Error>,
    M: Fn(&[u8], &[u8], &[u8], &BTreeMap<u32, Clock>) -> Result<Minted, Error>,
>(host: ConcatHost<O, I, C, M>) -> bool {
    forall|x: Exchange, y: Exchange|
        #![trigger answered(host, x), answered(host, y)]
        answered(host, x) && answered(host, y) && same_question(x, y) ==> same_answer(x, y)
}

/// Whether two outcomes are the same, but for how an error is stored.
pub open spec fn same_outcome(a: Outcome, b: Outcome) -> bool {
    match (a, b) {
        (Outcome::Failed { state: s, error: e }, Outcome::Failed { state: t, error: f }) => s == t
            && e@ == f@,
        (Outcome::Refused { .. }, Outcome::Refused { .. }) => a == b,
        (Outcome::Done { .. }, Outcome::Done { .. }) => a == b,
        _ => false,
    }
}

/// Whether boxes were taken as far as it goes.
pub open spec fn complete(o: Outcome) -> bool {
    match o {
        Outcome::Mismatch => false,
        Outcome::Done { state, .. } => at_rest(state),
        _ => true,
    }
}

proof fn lemma_moov_alike<
    O: Fn(&[u8]) -> Result<Catalog, Error>,
    I: Fn(&Catalog) -> Result<Vec<u8>, Error>,
    C: Fn(&[u8]) -> Result<(), Error>,
    M: Fn(&[u8], &[u8], &[u8], &BTreeMap<u32, Clock>) -> Result<Minted, Error>,
>(
    host: ConcatHost<O, I, C, M>,
    st: ConcatView,
    data: Seq<u8>,
    x: Seq<Exchange>,
    y: Seq<Exchange>,
)
    requires
        answers_alike(host),
        all_answered(host, x),
        all_answered(host, y),
        !(take_moov(st, data, x) is Mismatch),
        !(take_moov(st, data, y) is Mismatch),
    ensures
        same_outcome(take_moov(st, data, x), take_moov(st, data, y)),
{
    assert(answered(host, x[0]) && answered(host, y[0]));
    assert(same_answer(x[0], y[0]));
    if x.len() == 2 {
        assert(answered(host, x[1]) && answered(host, y[1]));
        assert(same_answer(x[1], y[1]));
    }
}

proof fn lemma_moof_alike<
    O: Fn(&[u8]) -> Result<Catalog, Error>,
    I: Fn(&Catalog) -> Result<Vec<u8>, Error>,
    C: Fn(&[u8]) -> Result<(), Error>,
    M: Fn(&[u8], &[u8], &[u8], &BTreeMap<u32, Clock>) -> Result<Minted, Error>,
>(
    host: ConcatHost<O, I, C, M>,
    st: ConcatView,
    data: Seq<u8>,
    x: Seq<Exchange>,
    y: Seq<Exchange>,
)
    requires
        answers_alike(host),
        all_answered(host, x),
        all_answered(host, y),
        !(take_moof(st, data, x) is Mismatch),
        !(take_moof(st, data, y) is Mismatch),
    ensures
        same_outcome(take_moof(st, data, x), take_moof(st, data, y)),
{
    if st.stream is Some {
        assert(answered(host, x[0]) && answered(host, y[0]));
        assert(same_answer(x[0], y[0]));
    }
}

proof fn lemma_mdat_alike<
    O: Fn(&[u8]) -> Result<Catalog, Error>,
    I: Fn(&Catalog) -> Result<Vec<u8>, Error>,
    C: Fn(&[u8]) -> Result<(), Error>,
    M: Fn(&[u8], &[u8], &[u8], &BTreeMap<u32, Clock>) -> Result<Minted, Error>,
>(
    host: ConcatHost<O, I, C, M>,
    st: ConcatView,
    data: Seq<u8>,
    x: Seq<Exchange>,
    y: Seq<Exchange>,
)
    requires
        answers_alike(host),
        all_answered(host, x),
        all_answered(host, y),
        !(take_mdat(st, data, x) is Mismatch),
        !(take_mdat(st, data, y) is Mismatch),
    ensures
        same_outcome(take_mdat(st, data, x), take_mdat(st, data, y)),
{
    if st.stream matches Some(stream) && stream.moof is Some {
        assert(answered(host, x[0]) && answered(host, y[0]));
        assert(same_answer(x[0], y[0]));
    }
}

/// From one state a box leads to one outcome.
proof fn lemma_step_alike<
    O: Fn(&[u8]) -> Result<Catalog, Error>,
    I: Fn(&Catalog) -> Result<Vec<u8>, Error>,
    C: Fn(&[u8]) -> Result<(), Error>,
    M: Fn(&[u8], &[u8], &[u8], &BTreeMap<u32, Clock>) -> Result<Minted, Error>,
>(host: ConcatHost<O, I, C, M>, st: ConcatView, x: Seq<Exchange>, y: Seq<Exchange>)
    requires
        answers_alike(host),
        all_answered(host, x),
        all_answered(host, y),
        !(step(st, x) is Mismatch),
        !(step(st, y) is Mismatch),
    ensures
        same_outcome(step(st, x), step(st, y)),
{
    let h = front_box(st.buf)->Some_0;
    let rest = ConcatView { buf: st.buf.skip(h.size), ..st };
    let data = st.buf.take(h.size);
    if !is_envelope(st, h) && h.size != 0 {
        if h.kind == MOOV {
            lemma_moov_alike(host, rest, data, x, y);
        } else if h.kind == MOOF {
            lemma_moof_alike(host, rest, data, x, y);
        } else if h.kind == MDAT {
            lemma_mdat_alike(host, rest, data, x, y);
        }
    }
}

/// All steps but the last of a run are done.
proof fn lemma_prefix_done(st: ConcatView, logs: Seq<Seq<Exchange>>, k: int)
    requires
        !(steps(st, logs) is Mismatch),
        0 <= k < logs.len(),
    ensures
        steps(st, logs.take(k)) is Done,
        !(step(steps(st, logs.take(k))->Done_state, logs[k]) is Mismatch),
        steps(st, logs.take(k + 1)) == behind(
            steps(st, logs.take(k))->events,
            step(steps(st, logs.take(k))->Done_state, logs[k]),
        ),
    decreases logs.len() - k,
{
    let next = logs.take(k + 1);
    if k + 1 == logs.len() {
        assert(next =~= logs);
    } else {
        lemma_prefix_done(st, logs, k + 1);
    }
    assert(next.drop_last() =~= logs.take(k));
    assert(next.last() == logs[k]);
}

proof fn lemma_prefix_alike<
    O: Fn(&[u8]) -> Result<Catalog, Error>,
    I: Fn(&Catalog) -> Result<Vec<u8>, Error>,
    C: Fn(&[u8]) -> Result<(), Error>,
    M: Fn(&[u8], &[u8], &[u8], &BTreeMap<u32, Clock>) -> Result<Minted, Error>,
>(
    host: ConcatHost<O, I, C, M>,
    st: ConcatView,
    x: Seq<Seq<Exchange>>,
    y: Seq<Seq<Exchange>>,
    k: int,
)
    requires
        answers_alike(host),
        logs_answered(host, x),
        logs_answered(host, y),
        !(steps(st, x) is Mismatch),
        !(steps(st, y) is Mismatch),
        0 <= k <= x.len(),
        k <= y.len(),
    ensures
        same_outcome(steps(st, x.take(k)), steps(st, y.take(k))),
    decreases k,
{
    if k == 0 {
        assert(x.take(0) =~= y.take(0));
    } else {
        lemma_prefix_alike(host, st, x, y, k - 1);
        lemma_prefix_done(st, x, k - 1);
        lemma_prefix_done(st, y, k - 1);
        let mid = steps(st, x.take(k - 1))->Done_state;
        assert(all_answered(host, x[k - 1]) && all_answered(host, y[k - 1]));
        lemma_step_alike(host, mid, x[k - 1], y[k - 1]);
    }
}

/// Two runs from one state, each as far as it goes, come to the same.
pub(crate) proof fn lemma_runs_alike<
    O: Fn(&[u8]) -> Result<Catalog, Error>,
    I: Fn(&Catalog) -> Result<Vec<u8>, Error>,
    C: Fn(&[u8]) -> Result<(), Error>,
    M: Fn(&[u8], &[u8], &[u8], &BTreeMap<u32, Clock>) -> Result<Minted, Error>,
>(
    host: ConcatHost<O, I, C, M>,
    st: ConcatView,
    x: Seq<Seq<Exchange>>,
    y: Seq<Seq<Exchange>>,
)
    requires
        answers_alike(host),
        logs_answered(host, x),
        logs_answered(host, y),
        complete(steps(st, x)),
        complete(steps(st, y)),
    ensures
        same_outcome(steps(st, x), steps(st, y)),
{
    let k = if x.len() <= y.len() {
        x.len() as int
    } else {
        y.len() as int
    };
    lemma_prefix_alike(host, st, x, y, k);
    if x.len() < y.len() {
        assert(x.take(k) =~= x);
        lemma_prefix_done(st, y, k);
    } else if y.len() < x.len() {
        assert(y.take(k) =~= y);
        lemma_prefix_done(st, x, k);
    } else {
        assert(x.take(k) =~= x);
        assert(y.take(k) =~= y);
    }
}

proof fn lemma_logs_joined<
    O: Fn(&[u8]) -> Result<Catalog, Error>,
    I: Fn(&Catalog) -> Result<Vec<u8>, Error>,
    C: Fn(&[u8]) -> Result<(), Error>,
    M: Fn(&[u8], &[u8], &[u8], &BTreeMap<u32, Clock>) -> Result<Minted, Error>,
>(host: ConcatHost<O, I, C, M>, x: Seq<Seq<Exchange>>, y: Seq<Seq<Exchange>>)
    requires
        logs_answered(host, x),
        logs_answered(host, y),
    ensures
        logs_answered(host, x + y),
{
    assert forall|i: int| 0 <= i < (x + y).len() implies all_answered(
        host,
        #[trigger] (x + y)[i],
    ) by {
        if i < x.len() {
            assert((x + y)[i] == x[i]);
        } else {
            assert((x + y)[i] == y[i - x.len()]);
        }
    }
}

/// How the input is cut into pieces does not matter: feeding `a` and then `b` comes to
/// the same state, and to the same events together or the same failure, as feeding
/// both at once.
pub proof fn law_feeding_in_pieces<
    O: Fn(&[u8]) -> Result<Catalog, Error>,
    I: Fn(&Catalog) -> Result<Vec<u8>, Error>,
    C: Fn(&[u8]) -> Result<(), Error>,
    M: Fn(&[u8], &[u8], &[u8], &BTreeMap<u32, Clock>) -> Result<Minted, Error>,
>(
    host: ConcatHost<O, I, C, M>,
    st: ConcatView,
    a: Seq<u8>,
    b: Seq<u8>,
    mid: ConcatView,
    first: Seq<EventView>,
    next: ConcatView,
    second: Result<Seq<EventView>, ErrorView>,
    at_once: ConcatView,
    whole: Result<Seq<EventView>, ErrorView>,
)
    requires
        answers_alike(host),
        feeds(host, st, a, mid, Ok(first)),
        feeds(host, mid, b, next, second),
        feeds(host, st, a + b, at_once, whole),
    ensures
        at_once == next,
        whole == match second {
            Ok(evs) => Ok::<Seq<EventView>, ErrorView>(first + evs),
            Err(e) => Err(e),
        },
{
    let x = choose|logs: Seq<Seq<Exchange>>| #[trigger]
        logs_answered(host, logs) && leads_to(steps(with_input(st, a), logs), mid, Ok(first));
    let y = choose|logs: Seq<Seq<Exchange>>| #[trigger]
        logs_answered(host, logs) && leads_to(steps(with_input(mid, b), logs), next, second);
    let z = choose|logs: Seq<Seq<Exchange>>| #[trigger]
        logs_answered(host, logs) && leads_to(
            steps(with_input(st, a + b), logs),
            at_once,
            whole,
        );
    law_pieces_do_not_matter(st, a, b, x, y);
    lemma_logs_joined(host, x, y);
    lemma_runs_alike(host, with_input(st, a + b), x + y, z);
}

/// `g` with its number `d` further on and, where there is one, the `uuid` box `u`
/// before the bytes of every track.
pub open spec fn dressed_gop(g: GopView, u: Option<Seq<u8>>, d: nat) -> GopView {
    let h = GopView { number: sat32(g.number + d), ..g };
    match u {
        None => h,
        Some(b) => prefixed(h, b),
    }
}

/// The event `e` with its GOP as of [`dressed_gop`].
pub open spec fn dressed_event(e: EventView, u: Option<Seq<u8>>, d: nat) -> EventView {
    match e {
        EventView::Segment(g) => EventView::Segment(dressed_gop(g, u, d)),
        other => other,
    }
}

/// The events `evs` with their GOPs as of [`dressed_gop`].
pub open spec fn dressed_events(evs: Seq<EventView>, u: Option<Seq<u8>>, d: nat) -> Seq<EventView> {
    evs.map_values(|e: EventView| dressed_event(e, u, d))
}

/// `s` in a file with the `uuid` box `u`, with `d` GOPs more cut before.
spec fn dressed(s: ConcatView, u: Option<Seq<u8>>, d: nat) -> ConcatView {
    ConcatView { uuid: u, number: sat32(s.number + d), ..s }
}

spec fn dressed_outcome(o: Outcome, u: Option<Seq<u8>>, d: nat) -> Outcome {
    match o {
        Outcome::Mismatch => o,
        Outcome::Failed { state, error } => Outcome::Failed { state: dressed(state, u, d), error },
        Outcome::Refused { state, text } => Outcome::Refused { state: dressed(state, u, d), text },
        Outcome::Done { state, events } => Outcome::Done {
            state: dressed(state, u, d),
            events: dressed_events(events, u, d),
        },
    }
}

proof fn lemma_dressed_cut(s: ConcatView, u: Option<Seq<u8>>, d: nat)
    requires
        s.uuid is None,
    ensures
        after_cut(dressed(s, u, d)) == dressed(after_cut(s), u, d),
        cut_event(dressed(s, u, d)) == dressed_events(cut_event(s), u, d),
{
    let t = dressed(s, u, d);
    assert(sat32(sat32(s.number + d) + 1) == sat32(sat32(s.number + 1) + d));
    match next_gop(s) {
        None => {
            assert(next_gop(t) is None);
        },
        Some(g) => {
            assert(next_gop(t) == Some(dressed_gop(g, u, d)));
        },
    }
    assert(cut_event(t) =~= dressed_events(cut_event(s), u, d));
}

proof fn lemma_dressed_joined(a: Seq<EventView>, b: Seq<EventView>, u: Option<Seq<u8>>, d: nat)
    ensures
        dressed_events(a + b, u, d) == dressed_events(a, u, d) + dressed_events(b, u, d),
{
    assert(dressed_events(a + b, u, d) =~= dressed_events(a, u, d) + dressed_events(b, u, d));
}

/// Frames lead to the same, whatever the `uuid` box and the numbers.
proof fn lemma_dressed_frames(s: ConcatView, fs: Seq<FrameView>, u: Option<Seq<u8>>, d: nat)
    requires
        s.uuid is None,
    ensures
        after_frames(s, fs).0.uuid is None,
        after_frames(dressed(s, u, d), fs).0 == dressed(after_frames(s, fs).0, u, d),
        after_frames(dressed(s, u, d), fs).1 == dressed_events(after_frames(s, fs).1, u, d),
    decreases fs.len(),
{
    let t = dressed(s, u, d);
    if fs.len() == 0 {
        assert(after_frames(t, fs).1 =~= dressed_events(after_frames(s, fs).1, u, d));
    } else {
        lemma_dressed_frames(s, fs.drop_last(), u, d);
        let (p, evs) = after_frames(s, fs.drop_last());
        lemma_dressed_cut(p, u, d);
        lemma_dressed_joined(evs, cut_event(p), u, d);
    }
}

/// Whether the `moof` of a fragment has come by, and its `mdat` has not.
pub open spec fn mid_fragment(s: ConcatView) -> bool {
    s.stream matches Some(t) && t.moof is Some
}

/// Whether a file goes on to its end with `s`: whole boxes, no box of an init section
/// among them. `pending` tells whether the `moof` of a fragment stands before `s`. An
/// `mdat` without one is the envelope of a flat MP4, and its boxes count.
pub open spec fn fragments(s: Seq<u8>, pending: bool) -> bool
    decreases s.len(),
{
    if s.len() == 0 {
        true
    } else {
        match front_box(s) {
            None => false,
            Some(h) => if h.kind == MDAT && !pending {
                0 < h.header <= s.len() && fragments(s.skip(h.header), false)
            } else {
                &&& 0 < h.size <= s.len()
                &&& h.kind != FTYP && h.kind != MOOV && h.kind != UUID
                &&& fragments(
                    s.skip(h.size),
                    if h.kind == MOOF {
                        true
                    } else if h.kind == MDAT {
                        false
                    } else {
                        pending
                    },
                )
            },
        }
    }
}

/// Whether `s` is in the fragments of a file.
spec fn in_fragments(s: ConcatView) -> bool {
    s.stream is Some && fragments(s.buf, mid_fragment(s))
}

pub(crate) proof fn lemma_frames_keep_stream(s: ConcatView, fs: Seq<FrameView>)
    requires
        s.stream is Some,
    ensures
        ({
            let t = after_frames(s, fs).0;
            &&& t.stream matches Some(x) && x.moof == s.stream->Some_0.moof
            &&& t.buf == s.buf
            &&& t.uuid == s.uuid
        }),
    decreases fs.len(),
{
    if fs.len() > 0 {
        lemma_frames_keep_stream(s, fs.drop_last());
    }
}

proof fn lemma_dressed_mdat(
    s: ConcatView,
    data: Seq<u8>,
    log: Seq<Exchange>,
    u: Option<Seq<u8>>,
    d: nat,
)
    requires
        s.uuid is None,
    ensures
        take_mdat(dressed(s, u, d), data, log) == dressed_outcome(take_mdat(s, data, log), u, d),
        take_mdat(s, data, log) matches Outcome::Done { state, events } ==> {
            &&& state.uuid is None
            &&& state.buf == s.buf
            &&& s.stream is Some ==> state.stream is Some && !mid_fragment(state)
        },
{
    if log.len() == 1 && mid_fragment(s) {
        if let Exchange::Mint { moov, moof, payload, clocks, answer } = log[0] {
            if let Ok(minted) = answer {
                let taken = StreamView { moof: None, ..s.stream->Some_0 };
                let base = ConcatView {
                    stream: Some(StreamView { clocks: minted.clocks@, ..taken }),
                    ..s
                };
                lemma_dressed_frames(base, frames_view(minted.frames@), u, d);
                lemma_frames_keep_stream(base, frames_view(minted.frames@));
            }
        }
    } else {
        assert(dressed_events(seq![], u, d) =~= seq![]);
    }
}

proof fn lemma_dressed_box(
    s: ConcatView,
    kind: int,
    data: Seq<u8>,
    log: Seq<Exchange>,
    u: Option<Seq<u8>>,
    d: nat,
)
    requires
        s.uuid is None,
        s.stream is Some,
        kind != FTYP && kind != MOOV && kind != UUID,
    ensures
        take_box(dressed(s, u, d), kind, data, log) == dressed_outcome(
            take_box(s, kind, data, log),
            u,
            d,
        ),
        take_box(s, kind, data, log) matches Outcome::Done { state, events } ==> {
            &&& state.uuid is None
            &&& state.buf == s.buf
            &&& state.stream is Some
            &&& mid_fragment(state) == if kind == MOOF {
                true
            } else if kind == MDAT {
                false
            } else {
                mid_fragment(s)
            }
        },
{
    assert(dressed_events(seq![], u, d) =~= seq![]);
    if kind == MDAT {
        lemma_dressed_mdat(s, data, log, u, d);
    }
}

proof fn lemma_dressed_counted(s: ConcatView, size: int, u: Option<Seq<u8>>, d: nat)
    requires
        s.uuid is None,
    ensures
        counted(dressed(s, u, d), size) == dressed(counted(s, size), u, d),
        counted_event(dressed(s, u, d), size) == dressed_events(counted_event(s, size), u, d),
        counted(s, size).uuid is None,
        counted(s, size).stream == s.stream,
        counted(s, size).buf == s.buf,
{
    assert(dressed_events(seq![], u, d) =~= seq![]);
    lemma_dressed_cut(s, u, d);
    lemma_dressed_cut(ConcatView { envelope: None, ..s }, u, d);
}

/// Within the fragments of a file a box leads to the same, whatever the `uuid` box and
/// the numbers.
proof fn lemma_dressed_step(s: ConcatView, log: Seq<Exchange>, u: Option<Seq<u8>>, d: nat)
    requires
        s.uuid is None,
        in_fragments(s),
    ensures
        step(dressed(s, u, d), log) == dressed_outcome(step(s, log), u, d),
        step(s, log) matches Outcome::Done { state, events } ==> state.uuid is None
            && in_fragments(state),
{
    let t = dressed(s, u, d);
    assert(dressed_events(seq![], u, d) =~= seq![]);
    assert(at_rest(t) == at_rest(s));
    if !at_rest(s) {
        let h = front_box(s.buf)->Some_0;
        if !is_envelope(s, h) {
            let rest = ConcatView { buf: s.buf.skip(h.size), ..s };
            let data = s.buf.take(h.size);
            lemma_dressed_box(rest, h.kind, data, log, u, d);
            assert(dressed(rest, u, d) == (ConcatView { buf: t.buf.skip(h.size), ..t }));
            if let Outcome::Done { state, events } = take_box(rest, h.kind, data, log) {
                lemma_dressed_counted(state, h.size, u, d);
                lemma_dressed_joined(events, counted_event(state, h.size), u, d);
            }
        }
    }
}

proof fn lemma_dressed_steps(s: ConcatView, logs: Seq<Seq<Exchange>>, u: Option<Seq<u8>>, d: nat)
    requires
        s.uuid is None,
        in_fragments(s),
    ensures
        steps(dressed(s, u, d), logs) == dressed_outcome(steps(s, logs), u, d),
        steps(s, logs) matches Outcome::Done { state, events } ==> state.uuid is None
            && in_fragments(state),
    decreases logs.len(),
{
    assert(dressed_events(seq![], u, d) =~= seq![]);
    if logs.len() > 0 {
        lemma_dressed_steps(s, logs.drop_last(), u, d);
        if let Outcome::Done { state, events } = steps(s, logs.drop_last()) {
            lemma_dressed_step(state, logs.last(), u, d);
            if let Outcome::Done { state: next, events: more } = step(state, logs.last()) {
                lemma_dressed_joined(events, more, u, d);
            }
        }
    }
}

/// Within the fragments of a file, whole boxes are never waited for.
proof fn lemma_rest_is_empty(s: ConcatView)
    requires
        in_fragments(s),
        at_rest(s),
    ensures
        s.buf.len() == 0,
{
}

/// Whether `evs` are GOPs numbered one after the other from behind `n` on, up to the
/// largest number.
pub open spec fn numbered(evs: Seq<EventView>, n: int) -> bool {
    forall|i: int|
        0 <= i < evs.len() ==> (#[trigger] evs[i] matches EventView::Segment(g) && g.number
            == sat32(n + i + 1))
}

proof fn lemma_numbered_joined(a: Seq<EventView>, b: Seq<EventView>, n: int)
    requires
        numbered(a, n),
        numbered(b, n + a.len()),
    ensures
        numbered(a + b, n),
{
    assert forall|i: int| 0 <= i < (a + b).len() implies (#[trigger] (a + b)[i] matches
        EventView::Segment(g) && g.number == sat32(n + i + 1)) by {
        if i < a.len() {
            assert((a + b)[i] == a[i]);
        } else {
            assert((a + b)[i] == b[i - a.len()]);
        }
    }
}

/// A state that has cut `n` GOPs, if its numbers have not reached the largest.
spec fn has_cut(s: ConcatView, n: int) -> bool {
    n >= 0 && s.number == sat32(n)
}

proof fn lemma_numbered_cut(s: ConcatView, n: int)
    requires
        has_cut(s, n),
    ensures
        numbered(cut_event(s), n),
        has_cut(after_cut(s), n + cut_event(s).len()),
{
}

proof fn lemma_numbered_frames(s: ConcatView, fs: Seq<FrameView>, n: int)
    requires
        has_cut(s, n),
    ensures
        numbered(after_frames(s, fs).1, n),
        has_cut(after_frames(s, fs).0, n + after_frames(s, fs).1.len()),
    decreases fs.len(),
{
    if fs.len() > 0 {
        lemma_numbered_frames(s, fs.drop_last(), n);
        let (p, evs) = after_frames(s, fs.drop_last());
        lemma_numbered_cut(p, n + evs.len());
        lemma_numbered_joined(evs, cut_event(p), n);
    }
}

proof fn lemma_numbered_mdat(s: ConcatView, data: Seq<u8>, log: Seq<Exchange>, n: int)
    requires
        has_cut(s, n),
    ensures
        take_mdat(s, data, log) matches Outcome::Done { state, events } ==> numbered(events, n)
            && has_cut(state, n + events.len()),
{
    if log.len() == 1 && mid_fragment(s) {
        if let Exchange::Mint { moov, moof, payload, clocks, answer } = log[0] {
            if let Ok(minted) = answer {
                let taken = StreamView { moof: None, ..s.stream->Some_0 };
                let base = ConcatView {
                    stream: Some(StreamView { clocks: minted.clocks@, ..taken }),
                    ..s
                };
                lemma_numbered_frames(base, frames_view(minted.frames@), n);
            }
        }
    }
}

proof fn lemma_numbered_step(s: ConcatView, log: Seq<Exchange>, n: int)
    requires
        has_cut(s, n),
        in_fragments(s),
    ensures
        step(s, log) matches Outcome::Done { state, events } ==> numbered(events, n) && has_cut(
            state,
            n + events.len(),
        ),
{
    if !at_rest(s) {
        let h = front_box(s.buf)->Some_0;
        if !is_envelope(s, h) {
            let rest = ConcatView { buf: s.buf.skip(h.size), ..s };
            let data = s.buf.take(h.size);
            if h.kind == MDAT {
                lemma_numbered_mdat(rest, data, log, n);
            }
            if let Outcome::Done { state, events } = take_box(rest, h.kind, data, log) {
                lemma_numbered_cut(state, n + events.len());
                lemma_numbered_cut(ConcatView { envelope: None, ..state }, n + events.len());
                lemma_numbered_joined(events, counted_event(state, h.size), n);
            }
        }
    }
}

/// The fragments of a file lead to GOPs, numbered one after the other.
proof fn lemma_numbered_steps(s: ConcatView, logs: Seq<Seq<Exchange>>, n: int)
    requires
        s.uuid is None,
        has_cut(s, n),
        in_fragments(s),
    ensures
        steps(s, logs) matches Outcome::Done { state, events } ==> numbered(events, n) && has_cut(
            state,
            n + events.len(),
        ),
    decreases logs.len(),
{
    if logs.len() > 0 {
        lemma_numbered_steps(s, logs.drop_last(), n);
        lemma_dressed_steps(s, logs.drop_last(), None, 0);
        if let Outcome::Done { state, events } = steps(s, logs.drop_last()) {
            lemma_numbered_step(state, logs.last(), n + events.len());
            if let Outcome::Done { state: next, events: more } = step(state, logs.last()) {
                lemma_numbered_joined(events, more, n);
            }
        }
    }
}

/// Whether `b` is one whole box of the kind `kind`.
pub open spec fn one_box(b: Seq<u8>, kind: u32) -> bool {
    front_box(b) matches Some(h) && h.kind == kind && h.size == b.len()
}

/// The bytes of an optional box.
pub open spec fn box_bytes(u: Option<Seq<u8>>) -> Seq<u8> {
    match u {
        Some(b) => b,
        None => seq![],
    }
}

/// Whether the file of `ftyp`, `u`, `moov` and `frags` is a whole one: an init section,
/// with a `uuid` box or without one, and fragments.
pub open spec fn whole_file(
    ftyp: Seq<u8>,
    u: Option<Seq<u8>>,
    moov: Seq<u8>,
    frags: Seq<u8>,
) -> bool {
    &&& one_box(ftyp, FTYP)
    &&& u matches Some(b) ==> one_box(b, UUID)
    &&& one_box(moov, MOOV)
    &&& fragments(frags, false)
}

/// The bytes of a file.
pub open spec fn file_bytes(
    ftyp: Seq<u8>,
    u: Option<Seq<u8>>,
    moov: Seq<u8>,
    frags: Seq<u8>,
) -> Seq<u8> {
    ftyp + (box_bytes(u) + (moov + frags))
}

/// Whether a cut leaves nothing behind: a track without a byte is never cut.
pub open spec fn tidy(s: ConcatView) -> bool {
    next_gop(s) is Some || s.bufs == Map::<u32, BufView>::empty()
}

/// The state behind the init section of a file with the catalog `c`.
spec fn entered(
    u: Option<Seq<u8>>,
    moov: Seq<u8>,
    c: Catalog,
    frags: Seq<u8>,
    number: u32,
) -> ConcatView {
    ConcatView {
        buf: frags,
        catalog: Some(c@),
        uuid: u,
        pending_uuid: None,
        stream: Some(
            StreamView {
                moov,
                clocks: Map::empty(),
                seen_key: false,
                begun: None,
                moof: None,
            },
        ),
        scales: map_over(Map::empty(), track_scales(&c)),
        video: video_ids(&c),
        bufs: Map::empty(),
        number,
        envelope: None,
    }
}

/// The first box of a run that goes as far as it can.
proof fn lemma_first_step(st: ConcatView, logs: Seq<Seq<Exchange>>)
    requires
        steps(st, logs) is Done,
        at_rest(steps(st, logs)->Done_state),
        !at_rest(st),
    ensures
        logs.len() > 0,
        step(st, logs[0]) is Done,
        steps(st, logs) == behind(
            step(st, logs[0])->events,
            steps(step(st, logs[0])->Done_state, logs.skip(1)),
        ),
        steps(step(st, logs[0])->Done_state, logs.skip(1)) is Done,
{
    assert(logs.len() > 0);
    lemma_prefix_done(st, logs, 0);
    let one = logs.take(1);
    assert(logs.take(0) =~= seq![]);
    assert(one =~= seq![logs[0]]);
    assert(steps(st, logs.take(0)) == (Outcome::Done { state: st, events: seq![] }));
    let first = step(st, logs[0]);
    if logs.len() > 1 {
        lemma_prefix_done(st, logs, 1);
    } else {
        assert(one =~= logs);
    }
    assert(first is Done);
    assert(Seq::<EventView>::empty() + first->events =~= first->events);
    lemma_steps_compose(st, one, logs.skip(1));
    assert(one + logs.skip(1) =~= logs);
}

/// The box `b` at the front of the input is there.
pub(crate) proof fn lemma_box_in_front(st: ConcatView, b: Seq<u8>, rest: Seq<u8>, kind: u32)
    requires
        one_box(b, kind),
        st.buf == b + rest,
    ensures
        front_box(st.buf) == front_box(b),
        front_box(b)->Some_0.size > 0,
        st.buf.take(b.len() as int) == b,
        st.buf.skip(b.len() as int) == rest,
        kind != MDAT ==> !at_rest(st),
{
    lemma_front_more(b, rest);
    assert(st.buf.take(b.len() as int) =~= b);
    assert(st.buf.skip(b.len() as int) =~= rest);
}

proof fn lemma_logs_skip<
    O: Fn(&[u8]) -> Result<Catalog, Error>,
    I: Fn(&Catalog) -> Result<Vec<u8>, Error>,
    C: Fn(&[u8]) -> Result<(), Error>,
    M: Fn(&[u8], &[u8], &[u8], &BTreeMap<u32, Clock>) -> Result<Minted, Error>,
>(host: ConcatHost<O, I, C, M>, logs: Seq<Seq<Exchange>>)
    requires
        logs_answered(host, logs),
        logs.len() > 0,
    ensures
        logs_answered(host, logs.skip(1)),
        all_answered(host, logs[0]),
{
    assert forall|i: int| 0 <= i < logs.skip(1).len() implies all_answered(
        host,
        #[trigger] logs.skip(1)[i],
    ) by {
        assert(logs.skip(1)[i] == logs[i + 1]);
    }
}

/// After the `ftyp` box of a file.
proof fn lemma_past_ftyp(st: ConcatView, ftyp: Seq<u8>, rest: Seq<u8>, log: Seq<Exchange>)
    requires
        one_box(ftyp, FTYP),
        st.buf == ftyp + rest,
        step(st, log) is Done,
    ensures
        step(st, log) == (Outcome::Done {
            state: ConcatView { buf: rest, ..awaiting_init(st, None) },
            events: cut_event(st),
        }),
{
    lemma_box_in_front(st, ftyp, rest, FTYP);
    let skipped = ConcatView { buf: rest, ..st };
    assert(next_gop(skipped) == next_gop(st));
    assert(cut_event(st) + Seq::<EventView>::empty() =~= cut_event(st));
}

/// After the `uuid` box of a file.
proof fn lemma_past_uuid(st: ConcatView, u: Seq<u8>, rest: Seq<u8>, log: Seq<Exchange>)
    requires
        one_box(u, UUID),
        st.buf == u + rest,
        st.stream is None,
        st.envelope is None,
        step(st, log) is Done,
    ensures
        step(st, log) == (Outcome::Done {
            state: ConcatView { buf: rest, pending_uuid: Some(u), ..st },
            events: seq![],
        }),
{
    lemma_box_in_front(st, u, rest, UUID);
    assert(Seq::<EventView>::empty() + Seq::<EventView>::empty() =~= Seq::<EventView>::empty());
}

/// After the `moov` box of a file, nothing being gathered.
proof fn lemma_past_moov<
    O: Fn(&[u8]) -> Result<Catalog, Error>,
    I: Fn(&Catalog) -> Result<Vec<u8>, Error>,
    C: Fn(&[u8]) -> Result<(), Error>,
    M: Fn(&[u8], &[u8], &[u8], &BTreeMap<u32, Clock>) -> Result<Minted, Error>,
>(
    host: ConcatHost<O, I, C, M>,
    st: ConcatView,
    moov: Seq<u8>,
    rest: Seq<u8>,
    log: Seq<Exchange>,
) -> (r: (Catalog, Seq<EventView>))
    requires
        one_box(moov, MOOV),
        st.buf == moov + rest,
        st.stream is None,
        st.envelope is None,
        st.bufs == Map::<u32, BufView>::empty(),
        all_answered(host, log),
        step(st, log) is Done,
    ensures
        answered(host, Exchange::Catalog(moov, Ok(r.0))),
        if st.catalog == Some(r.0@) {
            r.1.len() == 0
        } else {
            inits_of(host, r.0, r.1)
        },
        step(st, log) == (Outcome::Done {
            state: entered(st.pending_uuid, moov, r.0, rest, st.number),
            events: r.1,
        }),
{
    lemma_box_in_front(st, moov, rest, MOOV);
    let skipped = ConcatView { buf: rest, ..st };
    assert(gathered_nothing(st.bufs)) by {
        lemma_nothing_gathered();
    }
    assert(next_gop(skipped) is None);
    assert(answered(host, log[0]));
    let c = log[0]->Catalog_1->Ok_0;
    let o = take_box(skipped, MOOV as int, moov, log);
    let evs = o->events;
    assert(step(st, log)->events =~= evs);
    if st.catalog == Some(c@) {
        assert(evs =~= seq![]);
    } else {
        assert(answered(host, log[1]));
        let data = log[1]->Init_1->Ok_0;
        assert(answered(host, Exchange::Init(c, Ok(data))));
        assert(evs =~= seq![EventView::Init { catalog: c@, data: data@ }]);
    }
    (c, step(st, log)->events)
}

/// Whether `evs` is the init event of the catalog `c`.
spec fn inits_of<
    O: Fn(&[u8]) -> Result<Catalog, Error>,
    I: Fn(&Catalog) -> Result<Vec<u8>, Error>,
    C: Fn(&[u8]) -> Result<(), Error>,
    M: Fn(&[u8], &[u8], &[u8], &BTreeMap<u32, Clock>) -> Result<Minted, Error>,
>(host: ConcatHost<O, I, C, M>, c: Catalog, evs: Seq<EventView>) -> bool {
    exists|data: Vec<u8>|
        #[trigger] answered(host, Exchange::Init(c, Ok(data))) && evs == seq![
            EventView::Init { catalog: c@, data: data@ },
        ]
}

spec fn gathered_nothing(bufs: Map<u32, BufView>) -> bool {
    forall|scales: Map<u32, u32>, video: Seq<u32>, number: u32| #[trigger]
        gop_of(bufs, scales, video, number) is None
}

proof fn lemma_nothing_gathered()
    ensures
        gathered_nothing(Map::<u32, BufView>::empty()),
{
    assert(live(Map::<u32, BufView>::empty()) =~= Set::<u32>::empty());
}

/// The init section of a file: its catalog, the init event where there is one, and the
/// answers to the rest of the file.
proof fn lemma_head<
    O: Fn(&[u8]) -> Result<Catalog, Error>,
    I: Fn(&Catalog) -> Result<Vec<u8>, Error>,
    C: Fn(&[u8]) -> Result<(), Error>,
    M: Fn(&[u8], &[u8], &[u8], &BTreeMap<u32, Clock>) -> Result<Minted, Error>,
>(
    host: ConcatHost<O, I, C, M>,
    st: ConcatView,
    ftyp: Seq<u8>,
    u: Option<Seq<u8>>,
    moov: Seq<u8>,
    frags: Seq<u8>,
    logs: Seq<Seq<Exchange>>,
) -> (r: (Catalog, Seq<EventView>, Seq<Seq<Exchange>>))
    requires
        whole_file(ftyp, u, moov, frags),
        st.buf == file_bytes(ftyp, u, moov, frags),
        tidy(st),
        logs_answered(host, logs),
        steps(st, logs) is Done,
        at_rest(steps(st, logs)->Done_state),
    ensures
        answered(host, Exchange::Catalog(moov, Ok(r.0))),
        if st.catalog == Some(r.0@) {
            r.1.len() == 0
        } else {
            inits_of(host, r.0, r.1)
        },
        logs_answered(host, r.2),
        ({
            let start = entered(u, moov, r.0, frags, after_cut(st).number);
            &&& steps(st, logs) == behind(cut_event(st) + r.1, steps(start, r.2))
            &&& steps(start, r.2) is Done
        }),
{
    let tail = moov + frags;
    lemma_box_in_front(st, ftyp, box_bytes(u) + tail, FTYP);
    lemma_first_step(st, logs);
    lemma_logs_skip(host, logs);
    lemma_past_ftyp(st, ftyp, box_bytes(u) + tail, logs[0]);
    let a = step(st, logs[0])->Done_state;
    assert(a.bufs == Map::<u32, BufView>::empty());
    let x = logs.skip(1);
    match u {
        None => {
            assert(a.buf =~= tail);
            lemma_box_in_front(a, moov, frags, MOOV);
            lemma_first_step(a, x);
            lemma_logs_skip(host, x);
            let (c, evs) = lemma_past_moov(host, a, moov, frags, x[0]);
            let o = steps(step(a, x[0])->Done_state, x.skip(1));
            lemma_behind(cut_event(st), evs, o);
            (c, evs, x.skip(1))
        },
        Some(b) => {
            lemma_box_in_front(a, b, tail, UUID);
            lemma_first_step(a, x);
            lemma_logs_skip(host, x);
            lemma_past_uuid(a, b, tail, x[0]);
            let d = step(a, x[0])->Done_state;
            let y = x.skip(1);
            lemma_box_in_front(d, moov, frags, MOOV);
            lemma_first_step(d, y);
            lemma_logs_skip(host, y);
            let (c, evs) = lemma_past_moov(host, d, moov, frags, y[0]);
            let o = steps(step(d, y[0])->Done_state, y.skip(1));
            assert(Seq::<EventView>::empty() + evs =~= evs);
            lemma_behind(Seq::empty(), evs, o);
            lemma_behind(cut_event(st), evs, o);
            (c, evs, y.skip(1))
        },
    }
}

proof fn lemma_behind(a: Seq<EventView>, b: Seq<EventView>, o: Outcome)
    ensures
        behind(a, behind(b, o)) == behind(a + b, o),
{
    if let Outcome::Done { state, events } = o {
        assert(a + (b + events) =~= a + b + events);
    }
}

/// Two init sections with one `moov` box give one catalog and the same init event.
proof fn lemma_same_init<
    O: Fn(&[u8]) -> Result<Catalog, Error>,
    I: Fn(&Catalog) -> Result<Vec<u8>, Error>,
    C: Fn(&[u8]) -> Result<(), Error>,
    M: Fn(&[u8], &[u8], &[u8], &BTreeMap<u32, Clock>) -> Result<Minted, Error>,
>(
    host: ConcatHost<O, I, C, M>,
    moov: Seq<u8>,
    c: Catalog,
    d: Catalog,
    a: Seq<EventView>,
    b: Seq<EventView>,
)
    requires
        answers_alike(host),
        answered(host, Exchange::Catalog(moov, Ok(c))),
        answered(host, Exchange::Catalog(moov, Ok(d))),
    ensures
        same_catalog(c, d),
        inits_of(host, c, a) && inits_of(host, d, b) ==> a == b,
{
    let x = Exchange::Catalog(moov, Ok(c));
    let y = Exchange::Catalog(moov, Ok(d));
    assert(same_answer(x, y));
    if inits_of(host, c, a) && inits_of(host, d, b) {
        let p = choose|data: Vec<u8>|
            #[trigger] answered(host, Exchange::Init(c, Ok(data))) && a == seq![
                EventView::Init { catalog: c@, data: data@ },
            ];
        let q = choose|data: Vec<u8>|
            #[trigger] answered(host, Exchange::Init(d, Ok(data))) && b == seq![
                EventView::Init { catalog: d@, data: data@ },
            ];
        assert(same_answer(Exchange::Init(c, Ok(p)), Exchange::Init(d, Ok(q))));
    }
}

/// A run over the fragments of a file, beside one with another `uuid` box and other
/// numbers.
proof fn lemma_two_runs<
    O: Fn(&[u8]) -> Result<Catalog, Error>,
    I: Fn(&Catalog) -> Result<Vec<u8>, Error>,
    C: Fn(&[u8]) -> Result<(), Error>,
    M: Fn(&[u8], &[u8], &[u8], &BTreeMap<u32, Clock>) -> Result<Minted, Error>,
>(
    host: ConcatHost<O, I, C, M>,
    s: ConcatView,
    u: Option<Seq<u8>>,
    d: nat,
    x: Seq<Seq<Exchange>>,
    y: Seq<Seq<Exchange>>,
)
    requires
        answers_alike(host),
        s.uuid is None,
        in_fragments(s),
        logs_answered(host, x),
        logs_answered(host, y),
        complete(steps(s, x)),
        complete(steps(dressed(s, u, d), y)),
    ensures
        same_outcome(dressed_outcome(steps(s, x), u, d), steps(dressed(s, u, d), y)),
{
    lemma_dressed_steps(s, x, u, d);
    lemma_runs_alike(host, dressed(s, u, d), x, y);
}

/// A file with a `uuid` box in its init section gives the events of the same file
/// without one, the box put before the bytes of every track of every GOP. Durations
/// and sample counts are the same. The GOPs that are still to be cut count.
pub proof fn law_uuid_prefixes_every_gop<
    O: Fn(&[u8]) -> Result<Catalog, Error>,
    I: Fn(&Catalog) -> Result<Vec<u8>, Error>,
    C: Fn(&[u8]) -> Result<(), Error>,
    M: Fn(&[u8], &[u8], &[u8], &BTreeMap<u32, Clock>) -> Result<Minted, Error>,
>(
    host: ConcatHost<O, I, C, M>,
    ftyp: Seq<u8>,
    u: Seq<u8>,
    moov: Seq<u8>,
    frags: Seq<u8>,
    plain: ConcatView,
    plain_events: Seq<EventView>,
    marked: ConcatView,
    marked_events: Seq<EventView>,
)
    requires
        answers_alike(host),
        whole_file(ftyp, Some(u), moov, frags),
        feeds(
            host,
            concat_start(),
            file_bytes(ftyp, None, moov, frags),
            plain,
            Ok(plain_events),
        ),
        feeds(
            host,
            concat_start(),
            file_bytes(ftyp, Some(u), moov, frags),
            marked,
            Ok(marked_events),
        ),
    ensures
        ({
            let a = plain_events + cut_event(plain);
            let b = marked_events + cut_event(marked);
            &&& marked_events.len() == plain_events.len()
            &&& b.len() == a.len()
            &&& forall|i: int|
                0 <= i < a.len() ==> match #[trigger] a[i] {
                    EventView::Segment(g) => b[i] == EventView::Segment(prefixed(g, u)),
                    init => b[i] == init,
                }
        }),
{
    let start = concat_start();
    let f = with_input(start, file_bytes(ftyp, None, moov, frags));
    let g = with_input(start, file_bytes(ftyp, Some(u), moov, frags));
    assert(f.buf =~= file_bytes(ftyp, None, moov, frags));
    assert(g.buf =~= file_bytes(ftyp, Some(u), moov, frags));
    lemma_nothing_gathered();
    let lf = choose|logs: Seq<Seq<Exchange>>| #[trigger]
        logs_answered(host, logs) && leads_to(steps(f, logs), plain, Ok(plain_events));
    let lg = choose|logs: Seq<Seq<Exchange>>| #[trigger]
        logs_answered(host, logs) && leads_to(steps(g, logs), marked, Ok(marked_events));
    let (c, ic, x) = lemma_head(host, f, ftyp, None, moov, frags, lf);
    let (d, id, y) = lemma_head(host, g, ftyp, Some(u), moov, frags, lg);
    lemma_same_init(host, moov, c, d, ic, id);
    let s = entered(None, moov, c, frags, 0);
    let t = entered(Some(u), moov, d, frags, 0);
    assert(t == dressed(s, Some(u), 0));
    lemma_two_runs(host, s, Some(u), 0, x, y);
    lemma_dressed_steps(s, x, Some(u), 0);
    let ef = steps(s, x)->events;
    lemma_dressed_cut(plain, Some(u), 0);
    assert(cut_event(f) =~= seq![]);
    assert(cut_event(g) =~= seq![]);
    assert(plain_events =~= ic + ef);
    assert(marked_events =~= ic + dressed_events(ef, Some(u), 0));
    let a = plain_events + cut_event(plain);
    let b = marked_events + cut_event(marked);
    lemma_dressed_joined(ef, cut_event(plain), Some(u), 0);
    let tail = ef + cut_event(plain);
    assert(a =~= ic + tail);
    assert(b =~= ic + dressed_events(tail, Some(u), 0));
    assert forall|i: int| 0 <= i < a.len() implies match #[trigger] a[i] {
        EventView::Segment(g) => b[i] == EventView::Segment(prefixed(g, u)),
        init => b[i] == init,
    } by {
        if i >= ic.len() {
            let e = tail[i - ic.len()];
            assert(a[i] == e);
            assert(b[i] == dressed_event(e, Some(u), 0));
            if let EventView::Segment(g) = e {
                assert(GopView { number: sat32(g.number + 0), ..g } == g);
            }
        }
    }
}

/// What comes of feeding a whole file twice.
proof fn lemma_same_file_twice<
    O: Fn(&[u8]) -> Result<Catalog, Error>,
    I: Fn(&Catalog) -> Result<Vec<u8>, Error>,
    C: Fn(&[u8]) -> Result<(), Error>,
    M: Fn(&[u8], &[u8], &[u8], &BTreeMap<u32, Clock>) -> Result<Minted, Error>,
>(
    host: ConcatHost<O, I, C, M>,
    ftyp: Seq<u8>,
    u: Option<Seq<u8>>,
    moov: Seq<u8>,
    frags: Seq<u8>,
    once: ConcatView,
    first: Seq<EventView>,
    twice: ConcatView,
    second: Seq<EventView>,
)
    requires
        answers_alike(host),
        whole_file(ftyp, u, moov, frags),
        feeds(host, concat_start(), file_bytes(ftyp, u, moov, frags), once, Ok(first)),
        tidy(once),
        feeds(host, once, file_bytes(ftyp, u, moov, frags), twice, Ok(second)),
    ensures
        doubled(first + cut_event(once), first + second + cut_event(twice)),
{
    let file = file_bytes(ftyp, u, moov, frags);
    let f = with_input(concat_start(), file);
    assert(f.buf =~= file);
    lemma_nothing_gathered();
    let lf = choose|logs: Seq<Seq<Exchange>>| #[trigger]
        logs_answered(host, logs) && leads_to(steps(f, logs), once, Ok(first));
    let (c, ic, x) = lemma_head(host, f, ftyp, u, moov, frags, lf);
    let plain = entered(None, moov, c, frags, 0);
    let s = entered(u, moov, c, frags, 0);
    assert(s == dressed(plain, u, 0));
    lemma_dressed_steps(plain, x, u, 0);
    lemma_numbered_steps(plain, x, 0);
    let p = steps(plain, x)->Done_state;
    let evs = steps(plain, x)->events;
    let m = evs.len();
    lemma_rest_is_empty(p);
    assert(once.buf.len() == 0);
    let g = with_input(once, file);
    assert(g.buf =~= file);
    assert(next_gop(g) == next_gop(once));
    let lg = choose|logs: Seq<Seq<Exchange>>| #[trigger]
        logs_answered(host, logs) && leads_to(steps(g, logs), twice, Ok(second));
    let (d, id, y) = lemma_head(host, g, ftyp, u, moov, frags, lg);
    lemma_same_init(host, moov, c, d, ic, id);
    lemma_keeps_catalog(plain, x, u);
    let cut = cut_event(once);
    let n = (m + cut.len()) as nat;
    lemma_numbered_cut(once, m as int);
    assert(cut_event(g) == cut);
    let t = entered(u, moov, d, frags, after_cut(g).number);
    assert(t == dressed(plain, u, n));
    lemma_two_runs(host, plain, u, n, x, y);
    let more = dressed_events(evs, u, n);
    assert(first =~= ic + dressed_events(evs, u, 0));
    assert(second =~= cut + more);
    lemma_dressed_cut(p, u, 0);
    lemma_dressed_cut(p, u, n);
    lemma_numbers_moved(evs, u, 0, 0);
    lemma_numbers_moved(evs, u, n, 0);
    lemma_numbered_cut(p, m as int);
    lemma_numbers_moved(cut_event(p), u, n, m as int);
    let all = first + second + cut_event(twice);
    let a = dressed_events(evs, u, 0);
    let b = cut_event(twice);
    lemma_numbered_joined(a, cut, 0);
    lemma_numbered_joined(a + cut, more, 0);
    lemma_numbered_joined(a + cut + more, b, 0);
    let tail = a + cut + more + b;
    assert(all =~= ic + tail);
    assert forall|i: int| 1 <= i < all.len() implies (#[trigger] all[i] matches EventView::Segment(
        g,
    ) && g.number == sat32(i)) by {
        assert(all[i] == tail[i - 1]);
    }
}

/// GOPs with their numbers `d` further on are numbered from further on.
proof fn lemma_numbers_moved(evs: Seq<EventView>, u: Option<Seq<u8>>, d: nat, n: int)
    requires
        n >= 0,
        numbered(evs, n),
    ensures
        numbered(dressed_events(evs, u, d), n + d),
{
    let moved = dressed_events(evs, u, d);
    assert forall|i: int| 0 <= i < moved.len() implies (#[trigger] moved[i] matches
        EventView::Segment(g) && g.number == sat32(n + d + i + 1)) by {
        assert(evs[i] is Segment);
    }
}

proof fn lemma_frames_keep_catalog(s: ConcatView, fs: Seq<FrameView>)
    ensures
        after_frames(s, fs).0.catalog == s.catalog,
    decreases fs.len(),
{
    if fs.len() > 0 {
        lemma_frames_keep_catalog(s, fs.drop_last());
    }
}

proof fn lemma_step_keeps_catalog(s: ConcatView, log: Seq<Exchange>)
    requires
        in_fragments(s),
    ensures
        step(s, log) matches Outcome::Done { state, events } ==> state.catalog == s.catalog,
{
    if !at_rest(s) {
        let h = front_box(s.buf)->Some_0;
        let rest = ConcatView { buf: s.buf.skip(h.size), ..s };
        if h.kind == MDAT && log.len() == 1 && mid_fragment(s) {
            if let Exchange::Mint { moov, moof, payload, clocks, answer } = log[0] {
                if let Ok(minted) = answer {
                    let taken = StreamView { moof: None, ..s.stream->Some_0 };
                    lemma_frames_keep_catalog(
                        ConcatView {
                            stream: Some(StreamView { clocks: minted.clocks@, ..taken }),
                            ..rest
                        },
                        frames_view(minted.frames@),
                    );
                }
            }
        }
    }
}

/// The fragments of a file leave its catalog.
proof fn lemma_keeps_catalog(s: ConcatView, logs: Seq<Seq<Exchange>>, u: Option<Seq<u8>>)
    requires
        s.uuid is None,
        in_fragments(s),
    ensures
        steps(s, logs) matches Outcome::Done { state, events } ==> state.catalog == s.catalog,
    decreases logs.len(),
{
    if logs.len() > 0 {
        lemma_keeps_catalog(s, logs.drop_last(), u);
        lemma_dressed_steps(s, logs.drop_last(), u, 0);
        if let Outcome::Done { state, events } = steps(s, logs.drop_last()) {
            lemma_step_keeps_catalog(state, logs.last());
        }
    }
}

/// Whether `all` is what a file gives that is fed twice, `alone` being what it gives
/// alone: one init segment, before everything else, and twice the GOPs, numbered from 1
/// on without a gap up to the largest number.
pub open spec fn doubled(alone: Seq<EventView>, all: Seq<EventView>) -> bool {
    &&& alone.len() > 0
    &&& all.len() == 2 * alone.len() - 1
    &&& all[0] is Init
    &&& forall|i: int|
        1 <= i < all.len() ==> (#[trigger] all[i] matches EventView::Segment(g) && g.number
            == sat32(i))
}

/// Whether every frame that the caller makes has bytes.
pub open spec fn mints_bytes<
    O: Fn(&[u8]) -> Result<Catalog, Error>,
    I: Fn(&Catalog) -> Result<Vec<u8>, Error>,
    C: Fn(&[u8]) -> Result<(), Error>,
    M: Fn(&[u8], &[u8], &[u8], &BTreeMap<u32, Clock>) -> Result<Minted, Error>,
>(host: ConcatHost<O, I, C, M>) -> bool {
    forall|x: Exchange| #[trigger]
        answered(host, x) ==> match x {
            Exchange::Mint { answer: Ok(minted), .. } => all_have_bytes(frames_view(minted.frames@)),
            _ => true,
        }
}

/// Whether every one of the frames `fs` has bytes.
pub open spec fn all_have_bytes(fs: Seq<FrameView>) -> bool {
    forall|i: int| 0 <= i < fs.len() ==> (#[trigger] fs[i]).data.len() > 0
}

/// Whether every track that is gathered has bytes.
spec fn gathers_bytes(s: ConcatView) -> bool {
    forall|k: u32| #[trigger] s.bufs.contains_key(k) ==> s.bufs[k].data.len() > 0
}

proof fn lemma_cut_gathers(s: ConcatView)
    requires
        gathers_bytes(s),
    ensures
        gathers_bytes(after_cut(s)),
{
}

proof fn lemma_frames_gather(s: ConcatView, fs: Seq<FrameView>)
    requires
        gathers_bytes(s),
        all_have_bytes(fs),
    ensures
        gathers_bytes(after_frames(s, fs).0),
    decreases fs.len(),
{
    if fs.len() > 0 {
        let before = fs.drop_last();
        assert(all_have_bytes(before)) by {
            assert forall|i: int| 0 <= i < before.len() implies (#[trigger] before[i]).data.len()
                > 0 by {
                assert(before[i] == fs[i]);
            }
        }
        lemma_frames_gather(s, before);
        assert(fs[fs.len() - 1].data.len() > 0);
    }
}

proof fn lemma_step_gathers<
    O: Fn(&[u8]) -> Result<Catalog, Error>,
    I: Fn(&Catalog) -> Result<Vec<u8>, Error>,
    C: Fn(&[u8]) -> Result<(), Error>,
    M: Fn(&[u8], &[u8], &[u8], &BTreeMap<u32, Clock>) -> Result<Minted, Error>,
>(host: ConcatHost<O, I, C, M>, s: ConcatView, log: Seq<Exchange>)
    requires
        mints_bytes(host),
        all_answered(host, log),
        in_fragments(s),
        gathers_bytes(s),
    ensures
        step(s, log) matches Outcome::Done { state, events } ==> gathers_bytes(state),
{
    if !at_rest(s) {
        let h = front_box(s.buf)->Some_0;
        if !is_envelope(s, h) {
            let rest = ConcatView { buf: s.buf.skip(h.size), ..s };
            let data = s.buf.take(h.size);
            if h.kind == MDAT && log.len() == 1 && mid_fragment(s) {
                assert(answered(host, log[0]));
                if let Exchange::Mint { moov, moof, payload, clocks, answer } = log[0] {
                    if let Ok(minted) = answer {
                        let taken = StreamView { moof: None, ..s.stream->Some_0 };
                        lemma_frames_gather(
                            ConcatView {
                                stream: Some(StreamView { clocks: minted.clocks@, ..taken }),
                                ..rest
                            },
                            frames_view(minted.frames@),
                        );
                    }
                }
            }
            if let Outcome::Done { state, events } = take_box(rest, h.kind, data, log) {
                assert(gathers_bytes(state));
                lemma_cut_gathers(ConcatView { envelope: None, ..state });
            }
        }
    }
}

proof fn lemma_steps_gather<
    O: Fn(&[u8]) -> Result<Catalog, Error>,
    I: Fn(&Catalog) -> Result<Vec<u8>, Error>,
    C: Fn(&[u8]) -> Result<(), Error>,
    M: Fn(&[u8], &[u8], &[u8], &BTreeMap<u32, Clock>) -> Result<Minted, Error>,
>(host: ConcatHost<O, I, C, M>, s: ConcatView, logs: Seq<Seq<Exchange>>)
    requires
        mints_bytes(host),
        logs_answered(host, logs),
        s.uuid is None,
        in_fragments(s),
        gathers_bytes(s),
    ensures
        steps(s, logs) matches Outcome::Done { state, events } ==> gathers_bytes(state),
    decreases logs.len(),
{
    if logs.len() > 0 {
        let before = logs.drop_last();
        assert(logs_answered(host, before)) by {
            assert forall|i: int| 0 <= i < before.len() implies all_answered(
                host,
                #[trigger] before[i],
            ) by {
                assert(before[i] == logs[i]);
            }
        }
        lemma_steps_gather(host, s, before);
        lemma_dressed_steps(s, before, None, 0);
        assert(all_answered(host, logs[logs.len() - 1]));
        if let Outcome::Done { state, events } = steps(s, before) {
            lemma_step_gathers(host, state, logs.last());
        }
    }
}

/// What is gathered with bytes is cut whole.
proof fn lemma_tidy(s: ConcatView)
    requires
        gathers_bytes(s),
    ensures
        tidy(s),
{
    if s.bufs.dom() =~= Set::<u32>::empty() {
        assert(s.bufs =~= Map::<u32, BufView>::empty());
    } else {
        let k = choose|k: u32| s.bufs.dom().contains(k);
        assert(s.bufs.contains_key(k));
        assert(live(s.bufs).contains(k));
    }
}

/// The answers to the init section of a file whose catalog `c` is the last one.
spec fn head_logs(u: Option<Seq<u8>>, moov: Seq<u8>, c: Catalog) -> Seq<Seq<Exchange>> {
    let last = seq![Exchange::Catalog(moov, Ok(c))];
    match u {
        None => seq![seq![], last],
        Some(_) => seq![seq![], seq![], last],
    }
}

pub(crate) proof fn lemma_one_step(st: ConcatView, log: Seq<Exchange>, rest: Seq<Seq<Exchange>>)
    requires
        step(st, log) is Done,
    ensures
        steps(st, seq![log] + rest) == behind(
            step(st, log)->events,
            steps(step(st, log)->Done_state, rest),
        ),
{
    let one = seq![log];
    assert(one.drop_last() =~= seq![]);
    assert(one.last() == log);
    assert(steps(st, one.drop_last()) == (Outcome::Done { state: st, events: seq![] }));
    assert(Seq::<EventView>::empty() + step(st, log)->events =~= step(st, log)->events);
    lemma_steps_compose(st, one, rest);
}

/// The init section of a file with the catalog of the last init segment is taken, and
/// leads to what is cut before it.
proof fn lemma_head_again(
    st: ConcatView,
    ftyp: Seq<u8>,
    u: Option<Seq<u8>>,
    moov: Seq<u8>,
    frags: Seq<u8>,
    c: Catalog,
    x: Seq<Seq<Exchange>>,
)
    requires
        whole_file(ftyp, u, moov, frags),
        st.buf == file_bytes(ftyp, u, moov, frags),
        tidy(st),
        st.catalog == Some(c@),
    ensures
        steps(st, head_logs(u, moov, c) + x) == behind(
            cut_event(st),
            steps(entered(u, moov, c, frags, after_cut(st).number), x),
        ),
{
    let tail = moov + frags;
    let none: Seq<Exchange> = seq![];
    let last = seq![Exchange::Catalog(moov, Ok(c))];
    let a = ConcatView { buf: box_bytes(u) + tail, ..awaiting_init(st, None) };
    assert(a.bufs =~= Map::<u32, BufView>::empty()) by {
        lemma_nothing_gathered();
    }
    match u {
        None => {
            assert(box_bytes(u) + tail =~= tail);
            lemma_take_moov(a, moov, frags, c, x);
            lemma_take_ftyp(st, ftyp, box_bytes(u) + tail, seq![last] + x);
            assert(head_logs(u, moov, c) + x =~= seq![none] + (seq![last] + x));
        },
        Some(b) => {
            let d = ConcatView { buf: tail, pending_uuid: Some(b), ..a };
            lemma_take_moov(d, moov, frags, c, x);
            lemma_take_uuid(a, b, tail, seq![last] + x);
            lemma_take_ftyp(st, ftyp, box_bytes(u) + tail, seq![none] + (seq![last] + x));
            assert(head_logs(u, moov, c) + x =~= seq![none] + (seq![none] + (seq![last] + x)));
        },
    }
}

/// A run that starts with an `ftyp` box.
proof fn lemma_take_ftyp(
    st: ConcatView,
    ftyp: Seq<u8>,
    rest: Seq<u8>,
    x: Seq<Seq<Exchange>>,
)
    requires
        one_box(ftyp, FTYP),
        st.buf == ftyp + rest,
    ensures
        steps(st, seq![Seq::<Exchange>::empty()] + x) == behind(
            cut_event(st),
            steps(ConcatView { buf: rest, ..awaiting_init(st, None) }, x),
        ),
{
    let none = Seq::<Exchange>::empty();
    lemma_box_in_front(st, ftyp, rest, FTYP);
    assert(step(st, none) is Done);
    lemma_past_ftyp(st, ftyp, rest, none);
    lemma_one_step(st, none, x);
}

/// A run that starts with a `uuid` box before a `moov` box.
proof fn lemma_take_uuid(st: ConcatView, u: Seq<u8>, rest: Seq<u8>, x: Seq<Seq<Exchange>>)
    requires
        one_box(u, UUID),
        st.buf == u + rest,
        st.stream is None,
        st.envelope is None,
    ensures
        steps(st, seq![Seq::<Exchange>::empty()] + x) == steps(
            ConcatView { buf: rest, pending_uuid: Some(u), ..st },
            x,
        ),
{
    let none = Seq::<Exchange>::empty();
    lemma_box_in_front(st, u, rest, UUID);
    assert(step(st, none) is Done);
    lemma_past_uuid(st, u, rest, none);
    lemma_one_step(st, none, x);
    lemma_behind_nothing(steps(ConcatView { buf: rest, pending_uuid: Some(u), ..st }, x));
}

/// A run that starts with a `moov` box with the catalog of the last init segment.
proof fn lemma_take_moov(
    st: ConcatView,
    moov: Seq<u8>,
    rest: Seq<u8>,
    c: Catalog,
    x: Seq<Seq<Exchange>>,
)
    requires
        one_box(moov, MOOV),
        st.buf == moov + rest,
        st.stream is None,
        st.envelope is None,
        st.bufs == Map::<u32, BufView>::empty(),
        st.catalog == Some(c@),
    ensures
        steps(st, seq![seq![Exchange::Catalog(moov, Ok(c))]] + x) == steps(
            entered(st.pending_uuid, moov, c, rest, st.number),
            x,
        ),
{
    lemma_same_moov(st, moov, rest, c);
    lemma_one_step(st, seq![Exchange::Catalog(moov, Ok(c))], x);
    lemma_behind_nothing(steps(entered(st.pending_uuid, moov, c, rest, st.number), x));
}

pub(crate) proof fn lemma_behind_nothing(o: Outcome)
    ensures
        behind(seq![], o) == o,
{
    if let Outcome::Done { state, events } = o {
        assert(Seq::<EventView>::empty() + events =~= events);
    }
}

/// A `moov` box with the catalog of the last init segment leads to no event where
/// nothing is gathered.
proof fn lemma_same_moov(st: ConcatView, moov: Seq<u8>, rest: Seq<u8>, c: Catalog)
    requires
        one_box(moov, MOOV),
        st.buf == moov + rest,
        st.stream is None,
        st.envelope is None,
        st.bufs == Map::<u32, BufView>::empty(),
        st.catalog == Some(c@),
    ensures
        step(st, seq![Exchange::Catalog(moov, Ok(c))]) == (Outcome::Done {
            state: entered(st.pending_uuid, moov, c, rest, st.number),
            events: seq![],
        }),
{
    let log = seq![Exchange::Catalog(moov, Ok(c))];
    assert(log[0] == Exchange::Catalog(moov, Ok(c)));
    lemma_box_in_front(st, moov, rest, MOOV);
    lemma_nothing_gathered();
    let skipped = ConcatView { buf: rest, ..st };
    assert(next_gop(skipped) is None);
    assert(cut_event(skipped) + Seq::<EventView>::empty() =~= Seq::<EventView>::empty());
}

/// From one state a piece of the input leads to one state and one result.
proof fn lemma_feeds_alike<
    O: Fn(&[u8]) -> Result<Catalog, Error>,
    I: Fn(&Catalog) -> Result<Vec<u8>, Error>,
    C: Fn(&[u8]) -> Result<(), Error>,
    M: Fn(&[u8], &[u8], &[u8], &BTreeMap<u32, Clock>) -> Result<Minted, Error>,
>(
    host: ConcatHost<O, I, C, M>,
    st: ConcatView,
    data: Seq<u8>,
    a: ConcatView,
    p: Result<Seq<EventView>, ErrorView>,
    b: ConcatView,
    q: Result<Seq<EventView>, ErrorView>,
)
    requires
        answers_alike(host),
        feeds(host, st, data, a, p),
        feeds(host, st, data, b, q),
    ensures
        a == b,
        p == q,
{
    let x = choose|logs: Seq<Seq<Exchange>>| #[trigger]
        logs_answered(host, logs) && leads_to(steps(with_input(st, data), logs), a, p);
    let y = choose|logs: Seq<Seq<Exchange>>| #[trigger]
        logs_answered(host, logs) && leads_to(steps(with_input(st, data), logs), b, q);
    lemma_runs_alike(host, with_input(st, data), x, y);
}

/// A whole file that was taken once can be taken again.
proof fn lemma_second_feed<
    O: Fn(&[u8]) -> Result<Catalog, Error>,
    I: Fn(&Catalog) -> Result<Vec<u8>, Error>,
    C: Fn(&[u8]) -> Result<(), Error>,
    M: Fn(&[u8], &[u8], &[u8], &BTreeMap<u32, Clock>) -> Result<Minted, Error>,
>(
    host: ConcatHost<O, I, C, M>,
    ftyp: Seq<u8>,
    u: Option<Seq<u8>>,
    moov: Seq<u8>,
    frags: Seq<u8>,
    once: ConcatView,
    first: Seq<EventView>,
) -> (r: (ConcatView, Seq<EventView>))
    requires
        answers_alike(host),
        mints_bytes(host),
        whole_file(ftyp, u, moov, frags),
        feeds(host, concat_start(), file_bytes(ftyp, u, moov, frags), once, Ok(first)),
    ensures
        tidy(once),
        feeds(host, once, file_bytes(ftyp, u, moov, frags), r.0, Ok(r.1)),
{
    let file = file_bytes(ftyp, u, moov, frags);
    let f = with_input(concat_start(), file);
    assert(f.buf =~= file);
    lemma_nothing_gathered();
    let lf = choose|logs: Seq<Seq<Exchange>>| #[trigger]
        logs_answered(host, logs) && leads_to(steps(f, logs), once, Ok(first));
    let (c, ic, x) = lemma_head(host, f, ftyp, u, moov, frags, lf);
    let plain = entered(None, moov, c, frags, 0);
    assert(entered(u, moov, c, frags, 0) == dressed(plain, u, 0));
    lemma_dressed_steps(plain, x, u, 0);
    lemma_steps_gather(host, plain, x);
    lemma_keeps_catalog(plain, x, u);
    let p = steps(plain, x)->Done_state;
    lemma_tidy(once);
    lemma_rest_is_empty(p);
    let g = with_input(once, file);
    assert(g.buf =~= file);
    assert(next_gop(g) == next_gop(once));
    lemma_head_again(g, ftyp, u, moov, frags, c, x);
    let n = after_cut(g).number as nat;
    assert(entered(u, moov, c, frags, after_cut(g).number) == dressed(plain, u, n));
    lemma_dressed_steps(plain, x, u, n);
    let logs = head_logs(u, moov, c) + x;
    assert(logs_answered(host, head_logs(u, moov, c))) by {
        assert forall|i: int| 0 <= i < head_logs(u, moov, c).len() implies all_answered(
            host,
            #[trigger] head_logs(u, moov, c)[i],
        ) by {
        }
    }
    lemma_logs_joined(host, head_logs(u, moov, c), x);
    let o = steps(g, logs);
    let next = o->Done_state;
    let evs = o->events;
    assert(at_rest(next) == at_rest(p));
    assert(leads_to(o, next, Ok(evs)));
    (next, evs)
}

/// A whole file that is taken alone is taken again behind itself. Fed twice it gives
/// one init segment, before everything else, and twice the GOPs of the file, numbered
/// from 1 on without a gap up to the largest number. The GOPs that are still to be cut
/// count.
pub proof fn law_same_file_twice<
    O: Fn(&[u8]) -> Result<Catalog, Error>,
    I: Fn(&Catalog) -> Result<Vec<u8>, Error>,
    C: Fn(&[u8]) -> Result<(), Error>,
    M: Fn(&[u8], &[u8], &[u8], &BTreeMap<u32, Clock>) -> Result<Minted, Error>,
>(
    host: ConcatHost<O, I, C, M>,
    ftyp: Seq<u8>,
    u: Option<Seq<u8>>,
    moov: Seq<u8>,
    frags: Seq<u8>,
    once: ConcatView,
    first: Seq<EventView>,
    twice: ConcatView,
    second: Result<Seq<EventView>, ErrorView>,
)
    requires
        answers_alike(host),
        mints_bytes(host),
        whole_file(ftyp, u, moov, frags),
        feeds(host, concat_start(), file_bytes(ftyp, u, moov, frags), once, Ok(first)),
        feeds(host, once, file_bytes(ftyp, u, moov, frags), twice, second),
    ensures
        second matches Ok(evs) && doubled(
            first + cut_event(once),
            first + evs + cut_event(twice),
        ),
{
    let file = file_bytes(ftyp, u, moov, frags);
    let (t, evs) = lemma_second_feed(host, ftyp, u, moov, frags, once, first);
    lemma_feeds_alike(host, once, file, t, Ok(evs), twice, second);
    lemma_same_file_twice(host, ftyp, u, moov, frags, once, first, t, evs);
}

/// As [`law_same_file_twice`], the file and its copy fed at once.
pub proof fn law_file_behind_itself<
    O: Fn(&[u8]) -> Result<Catalog, Error>,
    I: Fn(&Catalog) -> Result<Vec<u8>, Error>,
    C: Fn(&[u8]) -> Result<(), Error>,
    M: Fn(&[u8], &[u8], &[u8], &BTreeMap<u32, Clock>) -> Result<Minted, Error>,
>(
    host: ConcatHost<O, I, C, M>,
    ftyp: Seq<u8>,
    u: Option<Seq<u8>>,
    moov: Seq<u8>,
    frags: Seq<u8>,
    once: ConcatView,
    first: Seq<EventView>,
    twice: ConcatView,
    both: Result<Seq<EventView>, ErrorView>,
)
    requires
        answers_alike(host),
        mints_bytes(host),
        whole_file(ftyp, u, moov, frags),
        feeds(host, concat_start(), file_bytes(ftyp, u, moov, frags), once, Ok(first)),
        feeds(
            host,
            concat_start(),
            file_bytes(ftyp, u, moov, frags) + file_bytes(ftyp, u, moov, frags),
            twice,
            both,
        ),
    ensures
        both matches Ok(evs) && doubled(first + cut_event(once), evs + cut_event(twice)),
{
    let file = file_bytes(ftyp, u, moov, frags);
    let (t, evs) = lemma_second_feed(host, ftyp, u, moov, frags, once, first);
    law_feeding_in_pieces(
        host,
        concat_start(),
        file,
        file,
        once,
        first,
        t,
        Ok(evs),
        twice,
        both,
    );
    lemma_same_file_twice(host, ftyp, u, moov, frags, once, first, t, evs);
}

} // verus!
