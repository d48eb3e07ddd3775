//! A flat MP4 is joined as a fragmented one is: its envelope changes nothing.

use std::collections::BTreeMap;

use vstd::prelude::*;

use crate::boxes::{be32, box_at, FTYP, MDAT, MOOF, MOOV, UUID};
use crate::catalog::Catalog;
use crate::concat::{
    after_cut, after_frames, all_answered, at_rest, behind, concat_start, counted, cut_event, feeds,
    front_box, leads_to, logs_answered, next_gop, step, steps, take_box,
    with_input, BoxHead, Clock, ConcatHost, ConcatView, EventView, Exchange, Minted, Outcome,
    StreamView,
};
use crate::error::{Error, ErrorView};
use crate::roundtrip::mdat_header;
use crate::runs::{
    answers_alike, box_bytes, complete, file_bytes, lemma_behind_nothing, lemma_frames_keep_stream,
    lemma_one_step, lemma_runs_alike, mid_fragment,
};
use crate::segment::{frames_view, FrameView};

verus! {

/// The header at the front of the input is that of the box there: as long as the bytes
/// before its body, and telling its size and its kind.
pub proof fn law_front_is_the_first_box(buf: Seq<u8>)
    requires
        box_at(buf, 0) is Ok,
        be32(buf, 0) != 0,
    ensures
        front_box(buf) == Some(
            BoxHead {
                size: box_at(buf, 0)->Ok_0.end,
                kind: box_at(buf, 0)->Ok_0.kind,
                header: box_at(buf, 0)->Ok_0.body,
            },
        ),
{
}

/// What is dropped at an envelope is its header, and nothing else: the input goes on with
/// the first byte of the body, and as many bytes as the body has are counted as inside.
pub proof fn law_envelope_opens_at_its_body(st: ConcatView, log: Seq<Exchange>)
    requires
        box_at(st.buf, 0) matches Ok(b) && b.kind == MDAT && b.end - b.body <= u64::MAX,
        be32(st.buf, 0) != 0,
        st.stream matches Some(t) && t.moof is None,
        step(st, log) is Done,
    ensures
        ({
            let b = box_at(st.buf, 0)->Ok_0;
            let next = step(st, log)->Done_state;
            &&& next.buf == st.buf.subrange(b.body, st.buf.len() as int)
            &&& next.envelope == Some((b.end - b.body) as u64)
            &&& next.bufs == st.bufs && next.stream == st.stream
            &&& step(st, log)->events.len() == 0
        }),
{
    law_front_is_the_first_box(st.buf);
}

/// Whether `b` is one whole box with a size, of the kind `kind`.
pub open spec fn sized_box(b: Seq<u8>, kind: u32) -> bool {
    be32(b, 0) != 0 && (box_at(b, 0) matches Ok(x) && x.kind == kind && x.end == b.len())
}

/// Whether `b` is a run of whole pairs of a `moof` and an `mdat` box; with `inner`, behind
/// the `moof` of the first.
pub open spec fn pairs(b: Seq<u8>, inner: bool) -> bool
    decreases b.len(),
{
    if b.len() == 0 {
        !inner
    } else {
        be32(b, 0) != 0 && (box_at(b, 0) matches Ok(x) && x.kind == (if inner {
            MDAT
        } else {
            MOOF
        }) && pairs(b.skip(x.end), !inner))
    }
}

/// Whether `s` is in the open fragments of a file, nothing but pairs being left.
spec fn inside(s: ConcatView) -> bool {
    &&& s.envelope is None
    &&& s.stream is Some
    &&& pairs(s.buf, mid_fragment(s))
    &&& s.buf.len() <= u64::MAX
}

/// `s` with what is left of its input in an envelope.
spec fn enclosed(s: ConcatView) -> ConcatView {
    ConcatView { envelope: Some(s.buf.len() as u64), ..s }
}

/// `s` with `e` in the place of its envelope.
spec fn with_envelope(s: ConcatView, e: Option<u64>) -> ConcatView {
    ConcatView { envelope: e, ..s }
}

proof fn lemma_enclosed_cut(s: ConcatView, e: Option<u64>)
    ensures
        after_cut(with_envelope(s, e)) == with_envelope(after_cut(s), e),
        cut_event(with_envelope(s, e)) == cut_event(s),
{
    assert(next_gop(with_envelope(s, e)) == next_gop(s));
}

proof fn lemma_enclosed_frames(s: ConcatView, fs: Seq<FrameView>, e: Option<u64>)
    ensures
        after_frames(with_envelope(s, e), fs).0 == with_envelope(after_frames(s, fs).0, e),
        after_frames(with_envelope(s, e), fs).1 == after_frames(s, fs).1,
        after_frames(s, fs).0.envelope == s.envelope,
    decreases fs.len(),
{
    if fs.len() > 0 {
        lemma_enclosed_frames(s, fs.drop_last(), e);
        lemma_enclosed_cut(after_frames(s, fs.drop_last()).0, e);
    }
}

/// A fragment box leads to the same inside an envelope.
proof fn lemma_enclosed_box(
    s: ConcatView,
    kind: int,
    data: Seq<u8>,
    log: Seq<Exchange>,
    e: Option<u64>,
)
    requires
        s.stream is Some,
        kind == MOOF || (kind == MDAT && mid_fragment(s)),
    ensures
        match take_box(s, kind, data, log) {
            Outcome::Done { state, events } => {
                &&& take_box(with_envelope(s, e), kind, data, log) == (Outcome::Done {
                    state: with_envelope(state, e),
                    events,
                })
                &&& state.buf == s.buf
                &&& state.envelope == s.envelope
                &&& state.stream is Some
                &&& mid_fragment(state) == (kind == MOOF)
            },
            Outcome::Failed { state, error } => take_box(
                with_envelope(s, e),
                kind,
                data,
                log,
            ) == (Outcome::Failed { state: with_envelope(state, e), error }),
            Outcome::Refused { .. } => false,
            Outcome::Mismatch => take_box(with_envelope(s, e), kind, data, log) is Mismatch,
        },
{
    if kind == MDAT && log.len() == 1 {
        if let Exchange::Mint { moov, moof, payload, clocks, answer } = log[0] {
            if let Ok(minted) = answer {
                let taken = StreamView { moof: None, ..s.stream->Some_0 };
                let base = ConcatView {
                    stream: Some(StreamView { clocks: minted.clocks@, ..taken }),
                    ..s
                };
                lemma_enclosed_frames(base, frames_view(minted.frames@), e);
                lemma_frames_keep_stream(base, frames_view(minted.frames@));
            }
        }
    }
}

proof fn lemma_enclosed_step(s: ConcatView, log: Seq<Exchange>)
    requires
        inside(s),
        s.buf.len() > 0,
    ensures
        !at_rest(s),
        match step(s, log) {
            Outcome::Done { state, events } => {
                &&& inside(state)
                &&& step(enclosed(s), log) == if state.buf.len() > 0 {
                    Outcome::Done { state: enclosed(state), events }
                } else {
                    Outcome::Done { state: after_cut(state), events: events + cut_event(state) }
                }
            },
            Outcome::Failed { state, error } => step(enclosed(s), log) matches Outcome::Failed {
                state: t,
                error: f,
            } && f == error,
            Outcome::Refused { .. } => false,
            Outcome::Mismatch => step(enclosed(s), log) is Mismatch,
        },
{
    law_front_is_the_first_box(s.buf);
    let h = front_box(s.buf)->Some_0;
    let left = Some(s.buf.len() as u64);
    let rest = ConcatView { buf: s.buf.skip(h.size), ..s };
    let data = s.buf.take(h.size);
    assert(!at_rest(s));
    assert(!at_rest(enclosed(s)));
    assert(ConcatView { buf: s.buf.skip(h.size), ..enclosed(s) } == with_envelope(rest, left));
    lemma_enclosed_box(rest, h.kind, data, log, left);
    if let Outcome::Done { state, events } = take_box(rest, h.kind, data, log) {
        assert(events + Seq::<EventView>::empty() =~= events);
        lemma_enclosed_cut(state, left);
        assert(with_envelope(state, None) == state);
        assert(ConcatView { envelope: None, ..with_envelope(state, left) } == state);
        assert(state.buf.len() == s.buf.len() - h.size);
        if h.size < s.buf.len() {
            assert(counted(with_envelope(state, left), h.size) == enclosed(state));
        }
    }
}

proof fn lemma_enclosed_steps(s: ConcatView, x: Seq<Seq<Exchange>>)
    requires
        inside(s),
        s.buf.len() > 0,
    ensures
        match steps(s, x) {
            Outcome::Done { state, events } => {
                &&& inside(state)
                &&& steps(enclosed(s), x) == if state.buf.len() > 0 {
                    Outcome::Done { state: enclosed(state), events }
                } else {
                    Outcome::Done { state: after_cut(state), events: events + cut_event(state) }
                }
            },
            Outcome::Failed { state, error } => steps(enclosed(s), x) matches Outcome::Failed {
                state: t,
                error: f,
            } && f == error,
            Outcome::Refused { .. } => false,
            Outcome::Mismatch => true,
        },
    decreases x.len(),
{
    if x.len() > 0 {
        lemma_enclosed_steps(s, x.drop_last());
        if let Outcome::Done { state, events } = steps(s, x.drop_last()) {
            if state.buf.len() > 0 {
                lemma_enclosed_step(state, x.last());
                if let Outcome::Done { state: last, events: more } = step(state, x.last()) {
                    assert(events + (more + cut_event(last)) =~= events + more + cut_event(last));
                }
            } else {
                assert(at_rest(state));
            }
        }
    }
}

/// What the first of several steps leaves to the others.
proof fn lemma_first_of_many(st: ConcatView, x: Seq<Seq<Exchange>>)
    requires
        !at_rest(st),
        complete(steps(st, x)),
    ensures
        x.len() > 0,
        match step(st, x[0]) {
            Outcome::Done { state, events } => steps(st, x) == behind(
                events,
                steps(state, x.skip(1)),
            ) && complete(steps(state, x.skip(1))),
            other => x.len() == 1 && steps(st, x) == other && complete(other),
        },
{
    assert(x.len() > 0);
    let one = x.take(1);
    assert(one =~= seq![x[0]]);
    assert(one.drop_last() =~= seq![]);
    assert(steps(st, one.drop_last()) == (Outcome::Done { state: st, events: seq![] }));
    let first = step(st, x[0]);
    if let Outcome::Done { state, events } = first {
        lemma_one_step(st, x[0], x.skip(1));
        assert(seq![x[0]] + x.skip(1) =~= x);
    } else {
        assert(steps(st, one) == first || steps(st, one) is Mismatch);
        assert(!(steps(st, one) is Done));
        if x.len() > 1 {
            lemma_stuck(st, x, 1);
        } else {
            assert(x =~= one);
            assert(steps(st, x) == first);
        }
    }
}

/// A run that is not done is not taken further.
proof fn lemma_stuck(st: ConcatView, x: Seq<Seq<Exchange>>, k: int)
    requires
        0 <= k < x.len(),
        !(steps(st, x.take(k)) is Done),
    ensures
        steps(st, x) is Mismatch,
    decreases x.len() - k,
{
    let next = x.take(k + 1);
    assert(next.drop_last() =~= x.take(k));
    assert(steps(st, next) is Mismatch);
    if k + 1 < x.len() {
        lemma_stuck(st, x, k + 1);
    } else {
        assert(next =~= x);
    }
}

/// `s` with the input `t`.
spec fn with_buf(s: ConcatView, t: Seq<u8>) -> ConcatView {
    ConcatView { buf: t, ..s }
}

proof fn lemma_tail_cut(s: ConcatView, t: Seq<u8>)
    ensures
        after_cut(with_buf(s, t)) == with_buf(after_cut(s), t),
        cut_event(with_buf(s, t)) == cut_event(s),
{
    assert(next_gop(with_buf(s, t)) == next_gop(s));
}

/// A box of an init section leads to the same, whatever stands behind it.
proof fn lemma_tail_step(st: ConcatView, b: Seq<u8>, kind: u32, t: Seq<u8>, v: Seq<u8>, log: Seq<
    Exchange,
>)
    requires
        sized_box(b, kind),
        kind == FTYP || kind == UUID || kind == MOOV,
        st.buf == b + t,
        st.envelope is None,
    ensures
        !at_rest(st),
        match step(st, log) {
            Outcome::Done { state, events } => {
                &&& state.buf == t
                &&& state.envelope is None
                &&& kind == MOOV ==> (state.stream matches Some(x) && x.moof is None)
                &&& step(with_buf(st, b + v), log) == (Outcome::Done {
                    state: with_buf(state, v),
                    events,
                })
            },
            Outcome::Failed { state, error } => step(with_buf(st, b + v), log) == (
            Outcome::Failed { state: with_buf(state, v), error }),
            Outcome::Refused { .. } => false,
            Outcome::Mismatch => true,
        },
{
    lemma_front_of(b, t);
    lemma_front_of(b, v);
    law_front_is_the_first_box(b);
    let n = b.len() as int;
    assert((b + t).skip(n) =~= t);
    assert((b + v).skip(n) =~= v);
    assert((b + t).take(n) =~= b);
    assert((b + v).take(n) =~= b);
    let rest = ConcatView { buf: t, ..st };
    lemma_tail_cut(rest, v);
    assert(with_buf(rest, v) == ConcatView { buf: v, ..with_buf(st, b + v) });
    let o = take_box(rest, kind as int, b, log);
    let p = take_box(with_buf(rest, v), kind as int, b, log);
    if let Outcome::Done { state, events } = o {
        assert(p == (Outcome::Done { state: with_buf(state, v), events }));
        assert(events + Seq::<EventView>::empty() =~= events);
    }
}

/// The header of a whole box is the same with more behind it.
proof fn lemma_front_of(b: Seq<u8>, t: Seq<u8>)
    requires
        be32(b, 0) != 0,
        box_at(b, 0) is Ok,
    ensures
        front_box(b + t) == front_box(b),
        be32(b + t, 0) != 0,
{
    let s = b + t;
    assert(s[0] == b[0] && s[1] == b[1] && s[2] == b[2] && s[3] == b[3]);
    assert(s[4] == b[4] && s[5] == b[5] && s[6] == b[6] && s[7] == b[7]);
    if be32(b, 0) == 1 {
        assert(s[8] == b[8] && s[9] == b[9] && s[10] == b[10] && s[11] == b[11]);
        assert(s[12] == b[12] && s[13] == b[13] && s[14] == b[14] && s[15] == b[15]);
    }
}

/// Whether two runs, with what their last states still have to cut, come to the same.
spec fn ends_alike(a: Outcome, b: Outcome) -> bool {
    match (a, b) {
        (
            Outcome::Done { state: s, events: x },
            Outcome::Done { state: t, events: y },
        ) => x + cut_event(s) == y + cut_event(t),
        (Outcome::Failed { error: e, .. }, Outcome::Failed { error: f, .. }) => e == f,
        _ => false,
    }
}

proof fn lemma_behind_alike(evs: Seq<EventView>, a: Outcome, b: Outcome)
    requires
        ends_alike(a, b),
    ensures
        ends_alike(behind(evs, a), behind(evs, b)),
{
    if let (
        Outcome::Done { state: s, events: x },
        Outcome::Done { state: t, events: y },
    ) = (a, b) {
        assert(evs + x + cut_event(s) =~= evs + (x + cut_event(s)));
        assert(evs + y + cut_event(t) =~= evs + (y + cut_event(t)));
    }
}

proof fn lemma_cut_is_all(s: ConcatView)
    ensures
        cut_event(after_cut(s)).len() == 0,
{
    if next_gop(s) is Some {
        let t = after_cut(s);
        assert(t.bufs.dom() =~= Set::<u32>::empty());
        assert(crate::segment::live(t.bufs) =~= Set::<u32>::empty());
    }
}

/// At the header of the envelope: the open run `x` of the body has one of the envelope.
proof fn lemma_past_envelope<
    O: Fn(&[u8]) -> Result<Catalog, Error>,
    I: Fn(&Catalog) -> Result<Vec<u8>, Error>,
    C: Fn(&[u8]) -> Result<(), Error>,
    M: Fn(&[u8], &[u8], &[u8], &BTreeMap<u32, Clock>) -> Result<Minted, Error>,
>(
    host: ConcatHost<O, I, C, M>,
    st: ConcatView,
    h: Seq<u8>,
    body: Seq<u8>,
    x: Seq<Seq<Exchange>>,
) -> (y: Seq<Seq<Exchange>>)
    requires
        st.envelope is None,
        st.stream matches Some(t) && t.moof is None,
        st.buf == body,
        pairs(body, false),
        body.len() <= u64::MAX,
        mdat_header(h, body.len() as int),
        logs_answered(host, x),
        complete(steps(st, x)),
    ensures
        logs_answered(host, y),
        complete(steps(with_buf(st, h + body), y)),
        ends_alike(steps(st, x), steps(with_buf(st, h + body), y)),
{
    let none: Seq<Exchange> = seq![];
    let shut = with_buf(st, h + body);
    lemma_envelope_header(h, body);
    law_front_is_the_first_box(h + body);
    assert((h + body).skip(h.len() as int) =~= body);
    let y = seq![none] + x;
    assert forall|i: int| 0 <= i < y.len() implies all_answered(host, #[trigger] y[i]) by {
        if i > 0 {
            assert(y[i] == x[i - 1]);
        }
    }
    assert(step(shut, none) == (Outcome::Done { state: enclosed(st), events: seq![] }));
    lemma_one_step(shut, none, x);
    lemma_behind_nothing(steps(enclosed(st), x));
    if body.len() == 0 {
        assert(at_rest(st));
        if x.len() > 0 {
            lemma_rest_stays(st, x);
        }
        assert(x =~= seq![]);
        assert(at_rest(enclosed(st)));
        lemma_enclosed_cut(st, Some(0));
    } else {
        lemma_enclosed_steps(st, x);
        if let Outcome::Done { state, events } = steps(st, x) {
            if state.buf.len() > 0 {
                lemma_enclosed_step(state, none);
            }
            assert(state.buf.len() == 0);
            lemma_cut_is_all(state);
            assert(events + cut_event(state) + cut_event(after_cut(state)) =~= events + cut_event(
                state,
            ));
            assert(after_cut(state).buf == state.buf);
        }
    }
    y
}

proof fn lemma_rest_stays(st: ConcatView, x: Seq<Seq<Exchange>>)
    requires
        at_rest(st),
        x.len() > 0,
    ensures
        steps(st, x) is Mismatch,
{
    let one = x.take(1);
    assert(one.drop_last() =~= seq![]);
    assert(steps(st, one.drop_last()) == (Outcome::Done { state: st, events: seq![] }));
    assert(steps(st, one) is Mismatch);
    if x.len() > 1 {
        lemma_stuck(st, x, 1);
    } else {
        assert(x =~= one);
    }
}

proof fn lemma_envelope_header(h: Seq<u8>, body: Seq<u8>)
    requires
        mdat_header(h, body.len() as int),
    ensures
        be32(h + body, 0) != 0,
        box_at(h + body, 0) matches Ok(b) && b.kind == MDAT && b.body == h.len() && b.end == h.len()
            + body.len(),
{
    let s = h + body;
    assert(s[0] == h[0] && s[1] == h[1] && s[2] == h[2] && s[3] == h[3]);
    assert(s[4] == h[4] && s[5] == h[5] && s[6] == h[6] && s[7] == h[7]);
    if h.len() == 16 {
        assert(s[8] == h[8] && s[9] == h[9] && s[10] == h[10] && s[11] == h[11]);
        assert(s[12] == h[12] && s[13] == h[13] && s[14] == h[14] && s[15] == h[15]);
    }
}

/// Past one box of an init section: the open run `x` has one of the envelope.
proof fn lemma_past_init<
    O: Fn(&[u8]) -> Result<Catalog, Error>,
    I: Fn(&Catalog) -> Result<Vec<u8>, Error>,
    C: Fn(&[u8]) -> Result<(), Error>,
    M: Fn(&[u8], &[u8], &[u8], &BTreeMap<u32, Clock>) -> Result<Minted, Error>,
>(
    host: ConcatHost<O, I, C, M>,
    st: ConcatView,
    b: Seq<u8>,
    kind: u32,
    t: Seq<u8>,
    v: Seq<u8>,
    x: Seq<Seq<Exchange>>,
    rest: Seq<Seq<Exchange>>,
) -> (y: Seq<Seq<Exchange>>)
    requires
        sized_box(b, kind),
        kind == FTYP || kind == UUID || kind == MOOV,
        st.buf == b + t,
        st.envelope is None,
        logs_answered(host, x),
        logs_answered(host, rest),
        complete(steps(st, x)),
        step(st, x[0]) matches Outcome::Done { state, events } ==> complete(
            steps(with_buf(state, v), rest),
        ) && ends_alike(steps(state, x.skip(1)), steps(with_buf(state, v), rest)),
    ensures
        logs_answered(host, y),
        complete(steps(with_buf(st, b + v), y)),
        ends_alike(steps(st, x), steps(with_buf(st, b + v), y)),
{
    let log = x[0];
    lemma_tail_step(st, b, kind, t, v, log);
    lemma_first_of_many(st, x);
    assert(all_answered(host, log));
    let shut = with_buf(st, b + v);
    if let Outcome::Done { state, events } = step(st, log) {
        let y = seq![log] + rest;
        assert forall|i: int| 0 <= i < y.len() implies all_answered(host, #[trigger] y[i]) by {
            if i > 0 {
                assert(y[i] == rest[i - 1]);
            }
        }
        lemma_one_step(shut, log, rest);
        lemma_behind_alike(events, steps(state, x.skip(1)), steps(with_buf(state, v), rest));
        y
    } else {
        let y = seq![log];
        assert(y.drop_last() =~= seq![]);
        assert(y.last() == log);
        assert(steps(shut, y.drop_last()) == (Outcome::Done { state: shut, events: seq![] }));
        assert(steps(shut, y) == step(shut, log));
        y
    }
}

proof fn lemma_answered_skip<
    O: Fn(&[u8]) -> Result<Catalog, Error>,
    I: Fn(&Catalog) -> Result<Vec<u8>, Error>,
    C: Fn(&[u8]) -> Result<(), Error>,
    M: Fn(&[u8], &[u8], &[u8], &BTreeMap<u32, Clock>) -> Result<Minted, Error>,
>(host: ConcatHost<O, I, C, M>, x: Seq<Seq<Exchange>>)
    requires
        logs_answered(host, x),
        x.len() > 0,
    ensures
        logs_answered(host, x.skip(1)),
{
    assert forall|i: int| 0 <= i < x.skip(1).len() implies all_answered(
        host,
        #[trigger] x.skip(1)[i],
    ) by {
        assert(x.skip(1)[i] == x[i + 1]);
    }
}

/// From the `moov` box on.
proof fn lemma_from_moov<
    O: Fn(&[u8]) -> Result<Catalog, Error>,
    I: Fn(&Catalog) -> Result<Vec<u8>, Error>,
    C: Fn(&[u8]) -> Result<(), Error>,
    M: Fn(&[u8], &[u8], &[u8], &BTreeMap<u32, Clock>) -> Result<Minted, Error>,
>(
    host: ConcatHost<O, I, C, M>,
    st: ConcatView,
    moov: Seq<u8>,
    h: Seq<u8>,
    body: Seq<u8>,
    x: Seq<Seq<Exchange>>,
) -> (y: Seq<Seq<Exchange>>)
    requires
        sized_box(moov, MOOV),
        pairs(body, false),
        body.len() <= u64::MAX,
        mdat_header(h, body.len() as int),
        st.buf == moov + body,
        st.envelope is None,
        logs_answered(host, x),
        complete(steps(st, x)),
    ensures
        logs_answered(host, y),
        complete(steps(with_buf(st, moov + (h + body)), y)),
        ends_alike(steps(st, x), steps(with_buf(st, moov + (h + body)), y)),
{
    let v = h + body;
    lemma_tail_step(st, moov, MOOV, body, v, x[0]);
    lemma_first_of_many(st, x);
    lemma_answered_skip(host, x);
    let rest = if let Outcome::Done { state, events } = step(st, x[0]) {
        lemma_past_envelope(host, state, h, body, x.skip(1))
    } else {
        seq![]
    };
    lemma_past_init(host, st, moov, MOOV, body, v, x, rest)
}

/// From the optional `uuid` box on.
proof fn lemma_from_uuid<
    O: Fn(&[u8]) -> Result<Catalog, Error>,
    I: Fn(&Catalog) -> Result<Vec<u8>, Error>,
    C: Fn(&[u8]) -> Result<(), Error>,
    M: Fn(&[u8], &[u8], &[u8], &BTreeMap<u32, Clock>) -> Result<Minted, Error>,
>(
    host: ConcatHost<O, I, C, M>,
    st: ConcatView,
    u: Option<Seq<u8>>,
    moov: Seq<u8>,
    h: Seq<u8>,
    body: Seq<u8>,
    x: Seq<Seq<Exchange>>,
) -> (y: Seq<Seq<Exchange>>)
    requires
        u matches Some(b) ==> sized_box(b, UUID),
        sized_box(moov, MOOV),
        pairs(body, false),
        body.len() <= u64::MAX,
        mdat_header(h, body.len() as int),
        st.buf == box_bytes(u) + (moov + body),
        st.envelope is None,
        logs_answered(host, x),
        complete(steps(st, x)),
    ensures
        logs_answered(host, y),
        complete(steps(with_buf(st, box_bytes(u) + (moov + (h + body))), y)),
        ends_alike(steps(st, x), steps(with_buf(st, box_bytes(u) + (moov + (h + body))), y)),
{
    let t = moov + body;
    let v = moov + (h + body);
    match u {
        None => {
            assert(box_bytes(u) + t =~= t);
            assert(box_bytes(u) + v =~= v);
            lemma_from_moov(host, st, moov, h, body, x)
        },
        Some(b) => {
            lemma_tail_step(st, b, UUID, t, v, x[0]);
            lemma_first_of_many(st, x);
            lemma_answered_skip(host, x);
            let rest = if let Outcome::Done { state, events } = step(st, x[0]) {
                lemma_from_moov(host, state, moov, h, body, x.skip(1))
            } else {
                seq![]
            };
            lemma_past_init(host, st, b, UUID, t, v, x, rest)
        },
    }
}

/// A file whose fragments stand in an `mdat` envelope, under the short or the 64-bit
/// header, gives what the file with these fragments in the open gives: the same events
/// where the stream is flushed behind it, and the same error where a box is refused.
pub proof fn law_an_envelope_changes_nothing<
    O: Fn(&[u8]) -> Result<Catalog, Error>,
    I: Fn(&Catalog) -> Result<Vec<u8>, Error>,
    C: Fn(&[u8]) -> Result<(), Error>,
    M: Fn(&[u8], &[u8], &[u8], &BTreeMap<u32, Clock>) -> Result<Minted, Error>,
>(
    host: ConcatHost<O, I, C, M>,
    ftyp: Seq<u8>,
    u: Option<Seq<u8>>,
    moov: Seq<u8>,
    h: Seq<u8>,
    body: Seq<u8>,
    open: ConcatView,
    p: Result<Seq<EventView>, ErrorView>,
    shut: ConcatView,
    q: Result<Seq<EventView>, ErrorView>,
)
    requires
        answers_alike(host),
        sized_box(ftyp, FTYP),
        u matches Some(b) ==> sized_box(b, UUID),
        sized_box(moov, MOOV),
        pairs(body, false),
        body.len() <= u64::MAX,
        mdat_header(h, body.len() as int),
        feeds(host, concat_start(), file_bytes(ftyp, u, moov, body), open, p),
        feeds(host, concat_start(), file_bytes(ftyp, u, moov, h + body), shut, q),
    ensures
        match (p, q) {
            (Ok(a), Ok(b)) => a + cut_event(open) == b + cut_event(shut),
            (Err(a), Err(b)) => a == b,
            _ => false,
        },
{
    let f = with_input(concat_start(), file_bytes(ftyp, u, moov, body));
    let g = with_input(concat_start(), file_bytes(ftyp, u, moov, h + body));
    let t = box_bytes(u) + (moov + body);
    let v = box_bytes(u) + (moov + (h + body));
    assert(f.buf =~= ftyp + t);
    assert(g.buf =~= ftyp + v);
    assert(g == with_buf(f, ftyp + v));
    let x = choose|logs: Seq<Seq<Exchange>>| #[trigger]
        logs_answered(host, logs) && leads_to(steps(f, logs), open, p);
    let z = choose|logs: Seq<Seq<Exchange>>| #[trigger]
        logs_answered(host, logs) && leads_to(steps(g, logs), shut, q);
    lemma_tail_step(f, ftyp, FTYP, t, v, x[0]);
    lemma_first_of_many(f, x);
    lemma_answered_skip(host, x);
    let rest = if let Outcome::Done { state, events } = step(f, x[0]) {
        lemma_from_uuid(host, state, u, moov, h, body, x.skip(1))
    } else {
        seq![]
    };
    let y = lemma_past_init(host, f, ftyp, FTYP, t, v, x, rest);
    lemma_runs_alike(host, g, y, z);
}

} // verus!
