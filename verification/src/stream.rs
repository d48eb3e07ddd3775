//! Splits a storage wrapper into canonical segments while it arrives.
//!
//! [`SegmentScanner`] is the forward-only twin of the in-memory reader: bytes
//! are handed to it in pieces of any size, and it hands back each canonical
//! segment as soon as the next one begins. It never seeks, and holds at most
//! the current segment and one box.

use vstd::prelude::*;
use vstd::slice::slice_subrange;

use crate::boxes::{
    be32, be64, box_at, is_muxl_box, is_muxl_uuid, muxl_uuid_at, read_be32, read_be64,     MDAT, MOOF, UUID,
};
use crate::error::{invalid_mp4, Error, ErrorView};
use crate::reader::{
    bytes_of, locate, muxl_follows, opens_stream, split, split_from, Range, };

verus! {

/// Why a scan stops before the end of the input.
#[derive(Clone, Copy, Debug, PartialEq, Eq, Structural)]
pub enum ScanFault {
    TruncatedHeader,
    TruncatedLargeHeader,
    SizeOutOfRange,
    TruncatedBody,
    NotUuid,
    Overrun,
}

/// Message of a [`ScanFault`].
pub open spec fn scan_fault_text(f: ScanFault) -> Seq<char> {
    match f {
        ScanFault::TruncatedHeader => "truncated box header"@,
        ScanFault::TruncatedLargeHeader => "truncated 64-bit box header"@,
        ScanFault::SizeOutOfRange => "box size out of range"@,
        ScanFault::TruncatedBody => "truncated box body"@,
        ScanFault::NotUuid => "segment stream did not begin with a uuid box"@,
        ScanFault::Overrun => "box overruns mdat envelope"@,
    }
}

impl ScanFault {
    /// The library error for this fault.
    pub fn to_error(self) -> (e: Error)
        ensures
            e@ == ErrorView::InvalidMp4(scan_fault_text(self)),
    {
        match self {
            ScanFault::TruncatedHeader => invalid_mp4("truncated box header"),
            ScanFault::TruncatedLargeHeader => invalid_mp4("truncated 64-bit box header"),
            ScanFault::SizeOutOfRange => invalid_mp4("box size out of range"),
            ScanFault::TruncatedBody => invalid_mp4("truncated box body"),
            ScanFault::NotUuid => invalid_mp4("segment stream did not begin with a uuid box"),
            ScanFault::Overrun => invalid_mp4("box overruns mdat envelope"),
        }
    }
}

/// Where a scan is: before the segment stream, inside it (with the bytes left
/// of the `mdat` envelope around it, if it has one), or over.
#[derive(Clone, Copy, Debug, PartialEq, Eq, Structural)]
pub enum Phase {
    Locating,
    Stream { left: Option<u64> },
    Over,
}

/// State of a scan between two boxes.
#[verifier::ext_equal]
pub struct ScanState {
    pub phase: Phase,
    /// Whether a segment has begun.
    pub started: bool,
    /// Whether the current segment holds its MUXL `uuid`.
    pub has_muxl: bool,
    /// The bytes of the current segment so far.
    pub segment: Seq<u8>,
}

/// State before the first byte.
pub open spec fn scan_start() -> ScanState {
    ScanState { phase: Phase::Locating, started: false, has_muxl: false, segment: seq![] }
}

/// Header of the next box: its type, its length, and the length of the body
/// (`None` for a box that reaches to the end of the input).
#[derive(Clone, Copy, Debug, PartialEq, Eq, Structural)]
pub struct Head {
    pub kind: u32,
    pub len: u64,
    pub body: Option<u64>,
}

/// What the bytes at hand say of the next box.
#[derive(Clone, Copy, Debug, PartialEq, Eq, Structural)]
pub enum Peek {
    /// More bytes are needed.
    Wait,
    /// The input ends here.
    End,
    Fault(ScanFault),
    Head(Head),
}

/// The next box header, when `a` are the bytes at hand and `eof` tells that no
/// more will come.
pub open spec fn peek(a: Seq<u8>, eof: bool) -> Peek {
    if a.len() < 8 {
        if !eof {
            Peek::Wait
        } else if a.len() == 0 {
            Peek::End
        } else {
            Peek::Fault(ScanFault::TruncatedHeader)
        }
    } else {
        let size = be32(a, 0);
        let kind = be32(a, 4) as u32;
        if size == 1 {
            if a.len() < 16 {
                if eof {
                    Peek::Fault(ScanFault::TruncatedLargeHeader)
                } else {
                    Peek::Wait
                }
            } else if be64(a, 8) < 16 {
                Peek::Fault(ScanFault::SizeOutOfRange)
            } else {
                Peek::Head(Head { kind, len: 16, body: Some((be64(a, 8) - 16) as u64) })
            }
        } else if size == 0 {
            Peek::Head(Head { kind, len: 8, body: None })
        } else if size < 8 {
            Peek::Fault(ScanFault::SizeOutOfRange)
        } else {
            Peek::Head(Head { kind, len: 8, body: Some((size - 8) as u64) })
        }
    }
}

/// Whether the `uuid` box `h` at hand is of the MUXL user type; `None` where
/// more bytes are needed to tell.
pub open spec fn uuid_muxl(a: Seq<u8>, eof: bool, h: Head) -> Option<bool> {
    if h.body matches Some(b) && b < 16 {
        Some(false)
    } else if a.len() < h.len + 16 {
        if eof {
            Some(false)
        } else {
            None
        }
    } else {
        Some(is_muxl_uuid(a, h.len as int))
    }
}

/// Whether the box after `h` is a MUXL `uuid` box; `None` where more bytes are
/// needed to tell.
pub open spec fn next_muxl(a: Seq<u8>, eof: bool, h: Head) -> Option<bool> {
    match h.body {
        None => Some(false),
        Some(b) => {
            let at = h.len + b;
            let head: int = if be32(a, at) == 1 {
                16
            } else {
                8
            };
            if a.len() < at + 8 || a.len() < at + head + 16 {
                if eof {
                    Some(false)
                } else {
                    None
                }
            } else {
                Some(be32(a, at + 4) == UUID && is_muxl_uuid(a, at + head))
            }
        },
    }
}

/// One step of a scan.
pub enum Step {
    /// More bytes are needed.
    Wait,
    /// The scan ends, with the last segment if there is one.
    Finish { out: Seq<Seq<u8>> },
    /// The scan fails, after a segment that was complete by then.
    Fail { out: Seq<Seq<u8>>, fault: ScanFault },
    /// `used` bytes are consumed, and a segment handed out if one is complete.
    Go { next: ScanState, used: int, out: Seq<Seq<u8>> },
}

/// The last segment, at the end of the stream.
pub open spec fn last_segment(st: ScanState) -> Seq<Seq<u8>> {
    if st.started && st.segment.len() > 0 {
        seq![st.segment]
    } else {
        seq![]
    }
}

/// Passes over the box `h` of the framing. A box without a size reaches to the end
/// of the input, so nothing comes after it.
pub open spec fn skip_step(st: ScanState, a: Seq<u8>, eof: bool, h: Head) -> Step {
    match h.body {
        None => Step::Finish { out: seq![] },
        Some(b) => if a.len() >= h.len + b {
            Step::Go { next: st, used: h.len + b, out: seq![] }
        } else if eof {
            Step::Fail { out: seq![], fault: ScanFault::TruncatedBody }
        } else {
            Step::Wait
        },
    }
}

/// Adds the box `h` to the current segment. `left` is what is left of the
/// envelope, and `out` what was completed before.
pub open spec fn capture_step(
    st: ScanState,
    left: Option<u64>,
    a: Seq<u8>,
    eof: bool,
    h: Head,
    out: Seq<Seq<u8>>,
) -> Step {
    let n: int = match h.body {
        Some(b) => h.len + b,
        None => a.len() as int,
    };
    if h.body is None && !eof {
        Step::Wait
    } else if a.len() < n {
        if eof {
            Step::Fail { out, fault: ScanFault::TruncatedBody }
        } else {
            Step::Wait
        }
    } else if left matches Some(rem) && n > rem {
        Step::Fail { out, fault: ScanFault::Overrun }
    } else {
        let rest: Option<u64> = match left {
            Some(rem) => Some((rem - n) as u64),
            None => None,
        };
        Step::Go {
            next: ScanState {
                phase: Phase::Stream { left: rest },
                segment: st.segment + a.subrange(0, n),
                ..st
            },
            used: n,
            out,
        }
    }
}

/// A step before the segment stream: framing is passed over, until an `mdat`
/// envelope or a box that opens the stream.
pub open spec fn locating_step(st: ScanState, a: Seq<u8>, eof: bool, h: Head) -> Step {
    let enter = Step::Go {
        next: ScanState { phase: Phase::Stream { left: None }, ..st },
        used: 0,
        out: seq![],
    };
    if h.kind == MDAT {
        Step::Go {
            next: ScanState { phase: Phase::Stream { left: h.body }, ..st },
            used: h.len as int,
            out: seq![],
        }
    } else if h.kind == MOOF {
        enter
    } else if h.kind == UUID {
        match uuid_muxl(a, eof, h) {
            None => Step::Wait,
            Some(true) => enter,
            Some(false) => match next_muxl(a, eof, h) {
                None => Step::Wait,
                Some(true) => enter,
                Some(false) => skip_step(st, a, eof, h),
            },
        }
    } else {
        skip_step(st, a, eof, h)
    }
}

/// A step inside the segment stream, by the boundary rule of
/// [`split_from`](crate::reader::split_from).
pub open spec fn stream_step(
    st: ScanState,
    left: Option<u64>,
    a: Seq<u8>,
    eof: bool,
    h: Head,
) -> Step {
    if h.kind == UUID {
        match uuid_muxl(a, eof, h) {
            None => Step::Wait,
            Some(muxl) => if st.started && (!muxl || st.has_muxl) {
                capture_step(
                    ScanState { started: true, has_muxl: muxl, segment: seq![], ..st },
                    left,
                    a,
                    eof,
                    h,
                    seq![st.segment],
                )
            } else {
                capture_step(
                    ScanState { started: true, has_muxl: st.has_muxl || muxl, ..st },
                    left,
                    a,
                    eof,
                    h,
                    seq![],
                )
            },
        }
    } else if !st.started {
        Step::Fail { out: seq![], fault: ScanFault::NotUuid }
    } else {
        capture_step(st, left, a, eof, h, seq![])
    }
}

/// One step of a scan with the bytes `a` at hand.
#[verifier::opaque]
pub open spec fn step(st: ScanState, a: Seq<u8>, eof: bool) -> Step {
    if st.phase == (Phase::Stream { left: Some(0) }) {
        Step::Finish { out: last_segment(st) }
    } else {
        match peek(a, eof) {
            Peek::Wait => Step::Wait,
            Peek::End => Step::Finish { out: last_segment(st) },
            Peek::Fault(fault) => Step::Fail { out: seq![], fault },
            Peek::Head(h) => match st.phase {
                Phase::Locating => locating_step(st, a, eof, h),
                Phase::Stream { left } => stream_step(st, left, a, eof, h),
                Phase::Over => Step::Finish { out: seq![] },
            },
        }
    }
}

/// Outcome of a scan over some bytes: the state after it, the bytes not yet
/// consumed, the segments handed out, and what went wrong.
#[verifier::ext_equal]
pub struct Run {
    pub state: ScanState,
    pub rest: Seq<u8>,
    pub out: Seq<Seq<u8>>,
    pub fault: Option<ScanFault>,
}

/// State of a scan that is over.
pub open spec fn scan_over() -> ScanState {
    ScanState { phase: Phase::Over, started: false, has_muxl: false, segment: seq![] }
}

/// Scans `a` from the state `st` as far as it goes.
pub open spec fn run(st: ScanState, a: Seq<u8>, eof: bool) -> Run
    decreases a.len(), (if st.phase is Locating { 1int } else { 0int }),
{
    if st.phase is Over {
        Run { state: scan_over(), rest: seq![], out: seq![], fault: None }
    } else {
        match step(st, a, eof) {
            Step::Wait => Run { state: st, rest: a, out: seq![], fault: None },
            Step::Finish { out } => Run { state: scan_over(), rest: seq![], out, fault: None },
            Step::Fail { out, fault } => Run {
                state: scan_over(),
                rest: seq![],
                out,
                fault: Some(fault),
            },
            Step::Go { next, used, out } => {
                proof {
                    reveal(step);
                }
                let r = run(next, a.skip(used), eof);
                Run { out: out + r.out, ..r }
            },
        }
    }
}

/// A step that needs no more bytes is not changed by the bytes that follow.
proof fn lemma_step_stable(st: ScanState, a: Seq<u8>, b: Seq<u8>, eof: bool)
    requires
        !(st.phase is Over),
        !(step(st, a, false) is Wait),
    ensures
        step(st, a + b, eof) == step(st, a, false),
{
    reveal(step);
    let ab = a + b;
    if st.phase != (Phase::Stream { left: Some(0) }) {
        assert(a.len() >= 8);
        assert forall|i: int| 0 <= i && i + 4 <= a.len() implies #[trigger] be32(ab, i) == be32(
            a,
            i,
        ) by {}
        assert forall|i: int| 0 <= i && i + 16 <= a.len() implies #[trigger] is_muxl_uuid(ab, i)
            == is_muxl_uuid(a, i) by {
            assert(ab.subrange(i, i + 16) =~= a.subrange(i, i + 16));
        }
        assert(peek(ab, eof) == peek(a, false));
        if let Peek::Head(h) = peek(a, false) {
            assert(uuid_muxl(a, false, h) is Some ==> uuid_muxl(ab, eof, h) == uuid_muxl(
                a,
                false,
                h,
            ));
            if next_muxl(a, false, h) is Some {
                if let Some(body) = h.body {
                    let at = h.len + body;
                    assert(be32(ab, at) == be32(a, at));
                    assert(be32(ab, at + 4) == be32(a, at + 4));
                }
                assert(next_muxl(ab, eof, h) == next_muxl(a, false, h));
            }
            if let Some(body) = h.body {
                if h.len + body <= a.len() {
                    assert(ab.subrange(0, h.len + body) =~= a.subrange(0, h.len + body));
                }
            }
        }
    }
}

/// Scanning some bytes and then more is scanning them at once.
#[verifier::rlimit(30)]
proof fn lemma_run_compose(st: ScanState, a: Seq<u8>, b: Seq<u8>, eof: bool)
    ensures
        ({
            let first = run(st, a, false);
            let second = run(first.state, first.rest + b, eof);
            run(st, a + b, eof) == if first.fault is Some {
                first
            } else {
                Run { out: first.out + second.out, ..second }
            }
        }),
    decreases a.len(), (if st.phase is Locating { 1int } else { 0int }),
{
    let first = run(st, a, false);
    let second = run(first.state, first.rest + b, eof);
    if st.phase is Over {
        assert(first.out + second.out =~= second.out);
    } else {
        match step(st, a, false) {
            Step::Wait => {
                assert(first.out + second.out =~= second.out);
            },
            Step::Finish { out } => {
                lemma_step_stable(st, a, b, eof);
                assert(first.out + second.out =~= first.out);
            },
            Step::Fail { out, fault } => {
                lemma_step_stable(st, a, b, eof);
            },
            Step::Go { next, used, out } => {
                lemma_step_stable(st, a, b, eof);
                assert(0 <= used <= a.len() && (used > 0 || (st.phase is Locating && !(
                next.phase is Locating)))) by {
                    reveal(step);
                }
                assert((a + b).skip(used) =~= a.skip(used) + b);
                lemma_run_compose(next, a.skip(used), b, eof);
                let tail = run(next, a.skip(used), false);
                assert(out + (tail.out + second.out) =~= (out + tail.out) + second.out);
            },
        }
    }
}

/// What a call of the scanner hands back: the segments that were completed, and
/// the error that ended the scan, if one did.
pub struct ScanOutput {
    pub segments: Vec<Vec<u8>>,
    pub error: Option<Error>,
}

/// The contents of the buffers in `v`.
pub open spec fn contents(v: Seq<Vec<u8>>) -> Seq<Seq<u8>> {
    v.map_values(|b: Vec<u8>| b@)
}

impl ScanOutput {
    /// Whether this is what `r` hands out.
    pub open spec fn is(&self, r: Run) -> bool {
        &&& contents(self.segments@) == r.out
        &&& match self.error {
            None => r.fault is None,
            Some(e) => r.fault matches Some(f) && e@ == ErrorView::InvalidMp4(scan_fault_text(f)),
        }
    }
}

fn peek_head(a: &[u8], eof: bool) -> (r: Peek)
    ensures
        r == peek(a@, eof),
{
    if a.len() < 8 {
        if !eof {
            Peek::Wait
        } else if a.len() == 0 {
            Peek::End
        } else {
            Peek::Fault(ScanFault::TruncatedHeader)
        }
    } else {
        let size: u32 = read_be32(a, 0);
        let kind: u32 = read_be32(a, 4);
        if size == 1 {
            if a.len() < 16 {
                if eof {
                    Peek::Fault(ScanFault::TruncatedLargeHeader)
                } else {
                    Peek::Wait
                }
            } else {
                let large: u64 = read_be64(a, 8);
                if large < 16 {
                    Peek::Fault(ScanFault::SizeOutOfRange)
                } else {
                    Peek::Head(Head { kind, len: 16, body: Some(large - 16) })
                }
            }
        } else if size == 0 {
            Peek::Head(Head { kind, len: 8, body: None })
        } else if size < 8 {
            Peek::Fault(ScanFault::SizeOutOfRange)
        } else {
            Peek::Head(Head { kind, len: 8, body: Some((size - 8) as u64) })
        }
    }
}

fn uuid_is_muxl(a: &[u8], eof: bool, h: &Head) -> (r: Option<bool>)
    requires
        h.len <= 16,
    ensures
        r == uuid_muxl(a@, eof, *h),
{
    match h.body {
        Some(b) => {
            if b < 16 {
                return Some(false);
            }
        },
        None => {},
    }
    if (a.len() as u64) < h.len + 16 {
        if eof {
            Some(false)
        } else {
            None
        }
    } else {
        Some(muxl_uuid_at(a, h.len as usize))
    }
}

fn next_box_is_muxl_stream(a: &[u8], eof: bool, h: &Head) -> (r: Option<bool>)
    requires
        h.len <= 16,
    ensures
        r == next_muxl(a@, eof, *h),
{
    let short: Option<bool> = if eof {
        Some(false)
    } else {
        None
    };
    let body: u64 = match h.body {
        None => {
            return Some(false);
        },
        Some(b) => b,
    };
    let have: u64 = a.len() as u64;
    if body > have || have - body < h.len + 8 {
        return short;
    }
    let at: usize = (h.len + body) as usize;
    let head: usize = if read_be32(a, at) == 1 {
        16
    } else {
        8
    };
    if a.len() - at < head + 16 {
        return short;
    }
    Some(read_be32(a, at + 4) == UUID && muxl_uuid_at(a, at + head))
}

/// Executable form of [`Step`], without the new state.
enum Taken {
    Wait,
    Finish,
    Fail(ScanFault),
    Go(usize),
}

/// Executable form of [`ScanState`].
struct ScanCore {
    phase: Phase,
    started: bool,
    has_muxl: bool,
    segment: Vec<u8>,
}

/// Whether the box `h` of the framing can be passed over.
fn weigh_skip(have: usize, eof: bool, h: &Head) -> (r: Taken)
    requires
        8 <= h.len <= 16,
        h.body matches Some(b) ==> h.len + b <= u64::MAX,
    ensures
        forall|st: ScanState, a: Seq<u8>|
            a.len() == have ==> (#[trigger] skip_step(st, a, eof, *h)) == match r {
                Taken::Go(n) => Step::Go { next: st, used: n as int, out: seq![] },
                Taken::Fail(fault) => Step::Fail { out: seq![], fault },
                Taken::Finish => Step::Finish { out: seq![] },
                Taken::Wait => Step::Wait,
            },
        r matches Taken::Go(n) ==> 0 < n <= have,
{
    let n: u64 = match h.body {
        Some(b) => h.len + b,
        None => return Taken::Finish,
    };
    if have as u64 >= n {
        Taken::Go(n as usize)
    } else if eof {
        Taken::Fail(ScanFault::TruncatedBody)
    } else {
        Taken::Wait
    }
}

/// Whether the box `h` can be added to a segment, and how long it is.
fn weigh_capture(left: Option<u64>, have: usize, eof: bool, h: &Head) -> (r: Taken)
    requires
        8 <= h.len <= 16,
        h.len <= have,
        h.body matches Some(b) ==> h.len + b <= u64::MAX,
    ensures
        !(r is Finish),
        forall|st: ScanState, a: Seq<u8>, out: Seq<Seq<u8>>|
            a.len() == have ==> (#[trigger] capture_step(st, left, a, eof, *h, out)) == match r {
                Taken::Go(n) => Step::Go {
                    next: ScanState {
                        phase: Phase::Stream {
                            left: match left {
                                Some(rem) => Some((rem - n) as u64),
                                None => None,
                            },
                        },
                        segment: st.segment + a.subrange(0, n as int),
                        ..st
                    },
                    used: n as int,
                    out,
                },
                Taken::Fail(fault) => Step::Fail { out, fault },
                _ => Step::Wait,
            },
        r matches Taken::Go(n) ==> 0 < n <= have && (left matches Some(rem) ==> n <= rem),
{
    let n: u64 = match h.body {
        Some(b) => h.len + b,
        None => {
            if !eof {
                return Taken::Wait;
            }
            have as u64
        },
    };
    if (have as u64) < n {
        return if eof {
            Taken::Fail(ScanFault::TruncatedBody)
        } else {
            Taken::Wait
        };
    }
    match left {
        Some(rem) => {
            if n > rem {
                return Taken::Fail(ScanFault::Overrun);
            }
        },
        None => {},
    }
    Taken::Go(n as usize)
}

impl ScanCore {
    spec fn state(&self) -> ScanState {
        ScanState {
            phase: self.phase,
            started: self.started,
            has_muxl: self.has_muxl,
            segment: self.segment@,
        }
    }

    /// Hands out the current segment.
    fn emit(&mut self, out: &mut Vec<Vec<u8>>)
        ensures
            contents(final(out)@) == contents(old(out)@) + seq![old(self).segment@],
            final(self).state() == (ScanState { segment: seq![], ..old(self).state() }),
    {
        let mut taken: Vec<u8> = Vec::new();
        std::mem::swap(&mut taken, &mut self.segment);
        out.push(taken);
        assert(contents(out@) =~= contents(old(out)@) + seq![old(self).segment@]);
    }

    /// Hands out the last segment, if there is one.
    fn emit_last(&mut self, out: &mut Vec<Vec<u8>>)
        ensures
            contents(final(out)@) == contents(old(out)@) + last_segment(old(self).state()),
    {
        assert(contents(out@) + seq![] =~= contents(out@));
        if self.started && self.segment.len() > 0 {
            self.emit(out);
        }
    }

    fn locating(&mut self, a: &[u8], eof: bool, h: &Head) -> (r: Taken)
        requires
            old(self).phase is Locating,
            8 <= h.len <= 16,
            h.len <= a@.len(),
            h.body matches Some(b) ==> h.len + b <= u64::MAX,
        ensures
            match locating_step(old(self).state(), a@, eof, *h) {
                Step::Wait => r is Wait && *final(self) == *old(self),
                Step::Finish { out } => r is Finish && out == Seq::<Seq<u8>>::empty(),
                Step::Fail { out, fault } => r == Taken::Fail(fault) && out == Seq::<
                    Seq<u8>,
                >::empty(),
                Step::Go { next, used, out } => {
                    &&& r matches Taken::Go(n) && n == used && n <= a@.len()
                    &&& out == Seq::<Seq<u8>>::empty()
                    &&& final(self).state() == next
                    &&& used > 0 || !(next.phase is Locating)
                },
            },
    {
        if h.kind == MDAT {
            self.phase = Phase::Stream { left: h.body };
            return Taken::Go(h.len as usize);
        }
        if h.kind == MOOF {
            self.phase = Phase::Stream { left: None };
            return Taken::Go(0);
        }
        if h.kind == UUID {
            match uuid_is_muxl(a, eof, h) {
                None => {
                    return Taken::Wait;
                },
                Some(true) => {
                    self.phase = Phase::Stream { left: None };
                    return Taken::Go(0);
                },
                Some(false) => {},
            }
            match next_box_is_muxl_stream(a, eof, h) {
                None => {
                    return Taken::Wait;
                },
                Some(true) => {
                    self.phase = Phase::Stream { left: None };
                    return Taken::Go(0);
                },
                Some(false) => {},
            }
        }
        let r = weigh_skip(a.len(), eof, h);
        assert(skip_step(self.state(), a@, eof, *h) == locating_step(self.state(), a@, eof, *h));
        r
    }

    fn streaming(
        &mut self,
        left: Option<u64>,
        a: &[u8],
        eof: bool,
        h: &Head,
        out: &mut Vec<Vec<u8>>,
    ) -> (r: Taken)
        requires
            old(self).phase == (Phase::Stream { left }),
            8 <= h.len <= 16,
            h.len <= a@.len(),
            h.body matches Some(b) ==> h.len + b <= u64::MAX,
        ensures
            match stream_step(old(self).state(), left, a@, eof, *h) {
                Step::Wait => r is Wait && *final(self) == *old(self) && *final(out) == *old(out),
                Step::Finish { out: o } => false,
                Step::Fail { out: o, fault } => r == Taken::Fail(fault) && contents(final(out)@)
                    == contents(old(out)@) + o,
                Step::Go { next, used, out: o } => {
                    &&& r matches Taken::Go(n) && n == used && 0 < n <= a@.len()
                    &&& final(self).state() == next
                    &&& contents(final(out)@) == contents(old(out)@) + o
                },
            },
    {
        let ghost st = self.state();
        assert(contents(out@) + seq![] =~= contents(out@));
        let muxl = if h.kind == UUID {
            match uuid_is_muxl(a, eof, h) {
                None => {
                    return Taken::Wait;
                },
                Some(m) => m,
            }
        } else {
            if !self.started {
                return Taken::Fail(ScanFault::NotUuid);
            }
            false
        };
        let verdict = weigh_capture(left, a.len(), eof, h);
        if let Taken::Wait = verdict {
            return Taken::Wait;
        }
        if h.kind == UUID {
            if self.started && (!muxl || self.has_muxl) {
                self.emit(out);
                self.has_muxl = muxl;
            } else {
                self.has_muxl = self.has_muxl || muxl;
            }
            self.started = true;
        }
        match verdict {
            Taken::Go(n) => {
                let ghost mid = self.state();
                self.segment.extend_from_slice(slice_subrange(a, 0, n));
                self.phase = Phase::Stream {
                    left: match left {
                        Some(rem) => Some(rem - n as u64),
                        None => None,
                    },
                };
                assert(self.segment@ =~= mid.segment + a@.subrange(0, n as int));
                Taken::Go(n)
            },
            other => other,
        }
    }

    /// Takes one step with the bytes `a` at hand.
    fn take_step(&mut self, a: &[u8], eof: bool, out: &mut Vec<Vec<u8>>) -> (r: Taken)
        requires
            !(old(self).phase is Over),
        ensures
            match step(old(self).state(), a@, eof) {
                Step::Wait => r is Wait && *final(self) == *old(self) && *final(out) == *old(out),
                Step::Finish { out: o } => r is Finish && contents(final(out)@) == contents(
                    old(out)@,
                ) + o,
                Step::Fail { out: o, fault } => r == Taken::Fail(fault) && contents(final(out)@)
                    == contents(old(out)@) + o,
                Step::Go { next, used, out: o } => {
                    &&& r matches Taken::Go(n) && n == used && n <= a@.len()
                    &&& final(self).state() == next
                    &&& contents(final(out)@) == contents(old(out)@) + o
                    &&& used > 0 || (old(self).phase is Locating && !(next.phase is Locating))
                    &&& !(next.phase is Over)
                },
            },
    {
        reveal(step);
        assert(contents(out@) + seq![] =~= contents(out@));
        if self.phase == (Phase::Stream { left: Some(0) }) {
            self.emit_last(out);
            return Taken::Finish;
        }
        match peek_head(a, eof) {
            Peek::Wait => Taken::Wait,
            Peek::End => {
                self.emit_last(out);
                Taken::Finish
            },
            Peek::Fault(fault) => Taken::Fail(fault),
            Peek::Head(h) => match self.phase {
                Phase::Locating => self.locating(a, eof, &h),
                Phase::Stream { left } => self.streaming(left, a, eof, &h, out),
                Phase::Over => Taken::Finish,
            },
        }
    }
}

/// Splits a storage wrapper, handed over in pieces, into canonical segments.
pub struct SegmentScanner {
    buf: Vec<u8>,
    core: ScanCore,
}

impl View for SegmentScanner {
    type V = (ScanState, Seq<u8>);

    /// The state of the scan, and the bytes not yet consumed.
    closed spec fn view(&self) -> (ScanState, Seq<u8>) {
        (self.core.state(), self.buf@)
    }
}

impl SegmentScanner {
    /// A scanner that has seen nothing yet.
    pub fn new() -> (r: Self)
        ensures
            r@ == (scan_start(), Seq::<u8>::empty()),
    {
        let core = ScanCore {
            phase: Phase::Locating,
            started: false,
            has_muxl: false,
            segment: Vec::new(),
        };
        assert(core.state() =~= scan_start());
        SegmentScanner { buf: Vec::new(), core }
    }

    /// Ends the scan.
    fn close(&mut self)
        ensures
            final(self)@ == (scan_over(), Seq::<u8>::empty()),
    {
        self.core = ScanCore {
            phase: Phase::Over,
            started: false,
            has_muxl: false,
            segment: Vec::new(),
        };
        self.buf = Vec::new();
        assert(self.core.state() =~= scan_over());
    }

    /// Scans what is buffered.
    fn advance(&mut self, eof: bool) -> (r: ScanOutput)
        ensures
            ({
                let done = run(old(self)@.0, old(self)@.1, eof);
                &&& r.is(done)
                &&& final(self)@ == (done.state, done.rest)
            }),
    {
        let ghost goal = run(self@.0, self@.1, eof);
        let mut out: Vec<Vec<u8>> = Vec::new();
        let mut pos: usize = 0;
        assert(self.buf@.skip(0) =~= self.buf@);
        assert(contents(out@) =~= seq![]);
        if let Phase::Over = self.core.phase {
            self.close();
            return ScanOutput { segments: out, error: None };
        }
        assert(seq![] + goal.out =~= goal.out);
        loop
            invariant
                pos <= self.buf@.len(),
                !(self.core.phase is Over),
                goal == run(old(self)@.0, old(self)@.1, eof),
                ({
                    let rest = run(self.core.state(), self.buf@.skip(pos as int), eof);
                    goal == Run { out: contents(out@) + rest.out, ..rest }
                }),
            decreases
                    self.buf@.len() - pos,
                    (if self.core.phase is Locating {
                        1int
                    } else {
                        0int
                    }),
        {
            let len: usize = self.buf.len();
            let ghost sofar = contents(out@);
            let ghost st = self.core.state();
            let ghost a = self.buf@.skip(pos as int);
            let avail = slice_subrange(self.buf.as_slice(), pos, len);
            assert(avail@ =~= a);
            match self.core.take_step(avail, eof, &mut out) {
                Taken::Wait => {
                    assert(sofar + seq![] =~= sofar);
                    let rest = self.buf.split_off(pos);
                    self.buf = rest;
                    assert(self.buf@ =~= a);
                    return ScanOutput { segments: out, error: None };
                },
                Taken::Finish => {
                    self.close();
                    return ScanOutput { segments: out, error: None };
                },
                Taken::Fail(fault) => {
                    self.close();
                    return ScanOutput { segments: out, error: Some(fault.to_error()) };
                },
                Taken::Go(n) => {
                    proof {
                        let s = step(st, a, eof);
                        assert(a.skip(n as int) =~= self.buf@.skip(pos + n));
                        let rest = run(self.core.state(), a.skip(n as int), eof);
                        assert(sofar + (s->Go_out + rest.out) =~= (sofar + s->Go_out) + rest.out);
                    }
                    pos = pos + n;
                },
            }
        }
    }

    /// Takes the next piece of the input, and hands back the segments that are
    /// complete with it.
    pub fn feed(&mut self, chunk: &[u8]) -> (r: ScanOutput)
        ensures
            ({
                let done = run(old(self)@.0, old(self)@.1 + chunk@, false);
                &&& r.is(done)
                &&& final(self)@ == (done.state, done.rest)
            }),
    {
        self.buf.extend_from_slice(chunk);
        assert(self.buf@ =~= old(self).buf@ + chunk@);
        self.advance(false)
    }

    /// Takes the end of the input, and hands back the last segment.
    pub fn finish(&mut self) -> (r: ScanOutput)
        ensures
            ({
                let done = run(old(self)@.0, old(self)@.1, true);
                &&& r.is(done)
                &&& final(self)@ == (done.state, done.rest)
            }),
    {
        self.advance(true)
    }
}

/// What the scan of all of `s` hands out.
pub open spec fn scan(s: Seq<u8>) -> Run {
    run(scan_start(), s, true)
}

/// The pieces in `chunks`, joined.
pub open spec fn join(chunks: Seq<Seq<u8>>) -> Seq<u8>
    decreases chunks.len(),
{
    if chunks.len() == 0 {
        seq![]
    } else {
        join(chunks.drop_last()) + chunks.last()
    }
}

/// Scans an input that arrives in the given pieces. What comes out depends on
/// the joined bytes alone, not on where they are cut.
pub fn scan_wrapper_stream(chunks: &Vec<Vec<u8>>) -> (r: ScanOutput)
    ensures
        r.is(scan(join(contents(chunks@)))),
{
    let mut scanner = SegmentScanner::new();
    let mut segments: Vec<Vec<u8>> = Vec::new();
    let mut i: usize = 0;
    let ghost pieces = contents(chunks@);
    proof {
        assert(pieces.take(0) =~= seq![]);
        assert(contents(segments@) =~= seq![]);
        reveal(step);
        assert(run(scan_start(), seq![], false).out =~= seq![]);
    }
    while i < chunks.len()
        invariant
            i <= chunks@.len(),
            pieces == contents(chunks@),
            ({
                let done = run(scan_start(), join(pieces.take(i as int)), false);
                &&& contents(segments@) == done.out
                &&& done.fault is None
                &&& scanner@ == (done.state, done.rest)
            }),
        decreases chunks@.len() - i,
    {
        let ghost before = join(pieces.take(i as int));
        let ghost sofar = segments@;
        proof {
            assert(pieces.take(i + 1).drop_last() =~= pieces.take(i as int));
            lemma_run_compose(scan_start(), before, chunks@[i as int]@, false);
        }
        let mut more = scanner.feed(chunks[i].as_slice());
        let ghost added = more.segments@;
        segments.append(&mut more.segments);
        assert(contents(segments@) =~= contents(sofar) + contents(added));
        if let Some(e) = more.error {
            proof {
                lemma_failed_prefix(pieces, i + 1);
            }
            return ScanOutput { segments, error: Some(e) };
        }
        i += 1;
    }
    assert(pieces.take(i as int) =~= pieces);
    let ghost sofar = segments@;
    proof {
        lemma_run_compose(scan_start(), join(pieces), seq![], true);
        assert(join(pieces) + seq![] =~= join(pieces));
        assert(scanner@.1 + seq![] =~= scanner@.1);
    }
    let mut last = scanner.finish();
    let ghost added = last.segments@;
    segments.append(&mut last.segments);
    assert(contents(segments@) =~= contents(sofar) + contents(added));
    ScanOutput { segments, error: last.error }
}

/// A scan that fails on the first `n` pieces fails there on all of them.
proof fn lemma_failed_prefix(pieces: Seq<Seq<u8>>, n: int)
    requires
        0 <= n <= pieces.len(),
        run(scan_start(), join(pieces.take(n)), false).fault is Some,
    ensures
        scan(join(pieces)) == run(scan_start(), join(pieces.take(n)), false),
{
    lemma_join_split(pieces, n);
    lemma_run_compose(scan_start(), join(pieces.take(n)), join(pieces.skip(n)), true);
}

/// Joined pieces can be joined in two parts.
pub proof fn lemma_join_split(pieces: Seq<Seq<u8>>, n: int)
    requires
        0 <= n <= pieces.len(),
    ensures
        join(pieces) == join(pieces.take(n)) + join(pieces.skip(n)),
    decreases pieces.len() - n,
{
    if n == pieces.len() {
        assert(pieces.take(n) =~= pieces);
        assert(pieces.skip(n) =~= seq![]);
        assert(join(pieces) + join(seq![]) =~= join(pieces));
    } else {
        let short = pieces.drop_last();
        lemma_join_split(short, n);
        assert(short.take(n) =~= pieces.take(n));
        assert(short.skip(n) =~= pieces.skip(n).drop_last());
        assert(pieces.skip(n).last() == pieces.last());
        assert((join(short.take(n)) + join(short.skip(n))) + pieces.last() =~= join(pieces.take(n))
            + (join(short.skip(n)) + pieces.last()));
    }
}

/// Feeding two pieces one after the other is feeding them joined: where an
/// input is cut makes no difference to what a scanner hands out, nor to the
/// state that it is left in.
pub proof fn law_chunking(st: ScanState, buffered: Seq<u8>, a: Seq<u8>, b: Seq<u8>)
    ensures
        ({
            let first = run(st, buffered + a, false);
            let second = run(first.state, first.rest + b, false);
            let whole = run(st, buffered + (a + b), false);
            first.fault is None ==> {
                &&& whole.out == first.out + second.out
                &&& whole.fault == second.fault
                &&& whole.state == second.state
                &&& whole.rest == second.rest
            }
        }),
{
    lemma_run_compose(st, buffered + a, b, false);
    assert(buffered + (a + b) =~= (buffered + a) + b);
}

/// Whether boxes cover `t` from `pos` to its end without a rest. `to_eof` tells
/// whether a box without a size, which reaches to the end of the input, ends
/// where `t` does.
pub open spec fn tiled(t: Seq<u8>, pos: int, to_eof: bool) -> bool
    decreases t.len() - pos,
{
    pos == t.len() || (pos + 8 <= t.len() && (be32(t, pos) != 0 || to_eof) && (box_at(t, pos)
        matches Ok(b) && tiled(t, b.end, to_eof)))
}

/// Whether the framing from `pos` on leads to a segment stream, or to the end: no
/// `uuid` box of another user type stands directly before a further `uuid` box
/// that is none of MUXL.
pub open spec fn plain_framing(s: Seq<u8>, pos: int) -> bool
    decreases s.len() - pos,
{
    pos == s.len() || (box_at(s, pos) matches Ok(b) && (b.kind == MDAT || opens_stream(s, b) || ((
    b.kind == UUID && b.end + 8 <= s.len() ==> be32(s, b.end + 4) != UUID) && plain_framing(
        s,
        b.end,
    ))))
}

/// The bytes of the segments in `rs`.
pub open spec fn cut(t: Seq<u8>, rs: Seq<Range>) -> Seq<Seq<u8>> {
    rs.map_values(|r: Range| bytes_of(t, r))
}

/// The header at `pos` of `t`, seen from the bytes of `s` that follow it.
proof fn lemma_head_at(s: Seq<u8>, from: int, t: Seq<u8>, pos: int)
    requires
        0 <= from,
        from + t.len() <= s.len() <= u64::MAX,
        t == s.subrange(from, from + t.len()),
        0 <= pos,
        box_at(t, pos) is Ok,
    ensures
        ({
            let b = box_at(t, pos)->Ok_0;
            let a = s.skip(from + pos);
            peek(a, true) == Peek::Head(
                Head {
                    kind: b.kind as u32,
                    len: (b.body - pos) as u64,
                    body: if be32(t, pos) == 0 {
                        None
                    } else {
                        Some((b.end - b.body) as u64)
                    },
                },
            ) && 0 <= b.kind <= u32::MAX && b.body - pos <= 16 && b.end - b.body <= u64::MAX
        }),
{
    let a = s.skip(from + pos);
    assert forall|i: int| 0 <= i < t.len() - pos implies #[trigger] a[i] == t[pos + i] by {}
    assert(be32(a, 0) == be32(t, pos));
    assert(be32(a, 4) == be32(t, pos + 4));
    if pos + 16 <= t.len() {
        assert(be64(a, 8) == be64(t, pos + 8));
    }
}

/// Whether the box at `pos` of `t` ends the current segment.
spec fn ends_segment(t: Seq<u8>, pos: int, st: ScanState) -> bool {
    let b = box_at(t, pos)->Ok_0;
    b.kind == UUID && st.started && (!is_muxl_box(t, b) || st.has_muxl)
}

/// The state after the box at `pos` of `t`.
spec fn state_after(t: Seq<u8>, pos: int, left: bool, st: ScanState) -> ScanState {
    let b = box_at(t, pos)->Ok_0;
    let muxl = is_muxl_box(t, b);
    let ends = ends_segment(t, pos, st);
    ScanState {
        phase: Phase::Stream {
            left: if left {
                Some((t.len() - b.end) as u64)
            } else {
                None
            },
        },
        started: true,
        has_muxl: if ends {
            muxl
        } else {
            st.has_muxl || (b.kind == UUID && muxl)
        },
        segment: (if ends {
            seq![]
        } else {
            st.segment
        }) + t.subrange(pos, b.end),
    }
}

/// One step of the scan inside the stream.
proof fn lemma_stream_step(
    s: Seq<u8>,
    from: int,
    t: Seq<u8>,
    left: bool,
    pos: int,
    st: ScanState,
)
    requires
        0 <= from,
        from + t.len() <= s.len() <= u64::MAX,
        t == s.subrange(from, from + t.len()),
        !left ==> from + t.len() == s.len(),
        0 <= pos,
        pos + 8 <= t.len(),
        be32(t, pos) != 0 || from + t.len() == s.len(),
        box_at(t, pos) is Ok,
        st.phase == (Phase::Stream {
            left: if left {
                Some((t.len() - pos) as u64)
            } else {
                None
            },
        }),
        st.started || box_at(t, pos)->Ok_0.kind == UUID,
    ensures
        step(st, s.skip(from + pos), true) == (Step::Go {
            next: state_after(t, pos, left, st),
            used: box_at(t, pos)->Ok_0.end - pos,
            out: if ends_segment(t, pos, st) {
                seq![st.segment]
            } else {
                seq![]
            },
        }),
{
    let a = s.skip(from + pos);
    let b = box_at(t, pos)->Ok_0;
    lemma_head_at(s, from, t, pos);
    let h = peek(a, true)->Head_0;
    let muxl = is_muxl_box(t, b);
    if b.kind == UUID && b.body + 16 <= b.end {
        assert(a.subrange(h.len as int, h.len + 16) =~= t.subrange(b.body, b.body + 16));
    }
    assert(b.kind == UUID ==> uuid_muxl(a, true, h) == Some(muxl));
    let n = b.end - pos;
    assert(a.subrange(0, n) =~= t.subrange(pos, b.end));
    let lim: Option<u64> = if left {
        Some((t.len() - pos) as u64)
    } else {
        None
    };
    let ends = ends_segment(t, pos, st);
    let mid = ScanState {
        started: true,
        has_muxl: if ends {
            muxl
        } else {
            st.has_muxl || (b.kind == UUID && muxl)
        },
        segment: if ends {
            seq![]
        } else {
            st.segment
        },
        ..st
    };
    let o: Seq<Seq<u8>> = if ends {
        seq![st.segment]
    } else {
        seq![]
    };
    assert(capture_step(mid, lim, a, true, h, o) == (Step::Go {
        next: state_after(t, pos, left, st),
        used: n,
        out: o,
    }));
    assert(stream_step(st, lim, a, true, h) == capture_step(mid, lim, a, true, h, o));
    reveal(step);
}

/// Inside the stream the scan and the split agree.
#[verifier::spinoff_prover]
#[verifier::rlimit(60)]
proof fn lemma_stream_agrees(
    s: Seq<u8>,
    from: int,
    t: Seq<u8>,
    left: bool,
    pos: int,
    open: Option<int>,
    st: ScanState,
)
    requires
        0 <= from,
        from + t.len() <= s.len() <= u64::MAX,
        t == s.subrange(from, from + t.len()),
        !left ==> from + t.len() == s.len(),
        0 <= pos <= t.len(),
        tiled(t, pos, from + t.len() == s.len()),
        split_from(t, pos, open, st.has_muxl).fault is None,
        st.phase == (Phase::Stream {
            left: if left {
                Some((t.len() - pos) as u64)
            } else {
                None
            },
        }),
        st.started == open is Some,
        !st.started ==> !st.has_muxl && st.segment == Seq::<u8>::empty(),
        open matches Some(o) ==> 0 <= o < pos && st.segment == t.subrange(o, pos),
    ensures
        run(st, s.skip(from + pos), true).out == cut(
            t,
            split_from(t, pos, open, st.has_muxl).segments,
        ),
        run(st, s.skip(from + pos), true).fault is None,
    decreases t.len() - pos,
{
    let a = s.skip(from + pos);
    let all = split_from(t, pos, open, st.has_muxl);
    if pos == t.len() {
        assert(step(st, a, true) == (Step::Finish { out: last_segment(st) })) by {
            reveal(step);
        }
        assert(cut(t, all.segments) =~= last_segment(st));
    } else {
        let b = box_at(t, pos)->Ok_0;
        lemma_stream_step(s, from, t, left, pos, st);
        let next = state_after(t, pos, left, st);
        let ends = ends_segment(t, pos, st);
        assert(a.skip(b.end - pos) =~= s.skip(from + b.end));
        let opened: int = if ends || open is None {
            pos
        } else {
            open->Some_0
        };
        assert(next.segment =~= t.subrange(opened, b.end));
        lemma_stream_agrees(s, from, t, left, b.end, Some(opened), next);
        let tail = split_from(t, b.end, Some(opened), next.has_muxl);
        if ends {
            assert(cut(t, all.segments) =~= seq![st.segment] + cut(t, tail.segments));
        } else {
            assert(all == tail);
            assert(seq![] + cut(t, tail.segments) =~= cut(t, tail.segments));
        }
    }
}

/// The scan and the search tell a MUXL `uuid` box alike.
proof fn lemma_uuid_is_muxl(s: Seq<u8>, pos: int)
    requires
        0 <= pos <= s.len() <= u64::MAX,
        box_at(s, pos) matches Ok(b) && b.kind == UUID,
    ensures
        ({
            let a = s.skip(pos);
            uuid_muxl(a, true, peek(a, true)->Head_0) == Some(
                is_muxl_box(s, box_at(s, pos)->Ok_0),
            )
        }),
{
    let a = s.skip(pos);
    let b = box_at(s, pos)->Ok_0;
    assert(s.subrange(0, s.len() as int) =~= s);
    lemma_head_at(s, 0, s, pos);
    let h = peek(a, true)->Head_0;
    if b.body + 16 <= b.end {
        assert(a.subrange(h.len as int, h.len + 16) =~= s.subrange(b.body, b.body + 16));
    }
}

/// The scan and the search tell alike whether a MUXL `uuid` box follows, where
/// no other `uuid` box does.
#[verifier::spinoff_prover]
#[verifier::rlimit(40)]
proof fn lemma_next_is_muxl(s: Seq<u8>, pos: int)
    requires
        0 <= pos <= s.len() <= u64::MAX,
        be32(s, pos) != 0,
        box_at(s, pos) matches Ok(b) && b.kind == UUID && (muxl_follows(s, b.end) || (b.end + 8
            <= s.len() ==> be32(s, b.end + 4) != UUID)),
    ensures
        ({
            let a = s.skip(pos);
            next_muxl(a, true, peek(a, true)->Head_0) == Some(
                muxl_follows(s, box_at(s, pos)->Ok_0.end),
            )
        }),
{
    let a = s.skip(pos);
    let b = box_at(s, pos)->Ok_0;
    assert(s.subrange(0, s.len() as int) =~= s);
    lemma_head_at(s, 0, s, pos);
    let h = peek(a, true)->Head_0;
    let at = h.len + h.body->Some_0;
    assert(pos + at == b.end);
    if b.end + 8 > s.len() {
        assert(a.len() < at + 8);
        assert(!muxl_follows(s, b.end));
    } else {
        assert(a[at] == s[b.end] && a[at + 1] == s[b.end + 1] && a[at + 2] == s[b.end + 2] && a[at
            + 3] == s[b.end + 3]);
        assert(a[at + 4] == s[b.end + 4] && a[at + 5] == s[b.end + 5] && a[at + 6] == s[b.end + 6]
            && a[at + 7] == s[b.end + 7]);
        assert(be32(a, at) == be32(s, b.end) && be32(a, at + 4) == be32(s, b.end + 4));
        if muxl_follows(s, b.end) {
            let nb = box_at(s, b.end)->Ok_0;
            assert(nb.body - b.end == if be32(s, b.end) == 1 { 16int } else { 8int });
            assert(a.subrange(nb.body - pos, nb.body - pos + 16) =~= s.subrange(
                nb.body,
                nb.body + 16,
            ));
        }
    }
}

/// One step of the scan before the stream.
#[verifier::spinoff_prover]
#[verifier::rlimit(40)]
proof fn lemma_framing_step(s: Seq<u8>, pos: int)
    requires
        0 <= pos <= s.len() <= u64::MAX,
        pos < s.len(),
        plain_framing(s, pos),
    ensures
        ({
            let b = box_at(s, pos)->Ok_0;
            let st = scan_start();
            step(st, s.skip(pos), true) == if b.kind == MDAT {
                Step::Go {
                    next: ScanState {
                        phase: Phase::Stream {
                            left: if be32(s, pos) == 0 {
                                None
                            } else {
                                Some((b.end - b.body) as u64)
                            },
                        },
                        ..st
                    },
                    used: b.body - pos,
                    out: seq![],
                }
            } else if opens_stream(s, b) {
                Step::Go {
                    next: ScanState { phase: Phase::Stream { left: None }, ..st },
                    used: 0,
                    out: seq![],
                }
            } else if be32(s, pos) == 0 {
                Step::Finish { out: seq![] }
            } else {
                Step::Go { next: st, used: b.end - pos, out: seq![] }
            }
        }),
{
    let a = s.skip(pos);
    let st = scan_start();
    let b = box_at(s, pos)->Ok_0;
    assert(s.subrange(0, s.len() as int) =~= s);
    lemma_head_at(s, 0, s, pos);
    let h = peek(a, true)->Head_0;
    if b.kind == UUID {
        lemma_uuid_is_muxl(s, pos);
        if !is_muxl_box(s, b) {
            if be32(s, pos) != 0 {
                lemma_next_is_muxl(s, pos);
            } else {
                assert(b.end == s.len());
            }
        }
    }
    assert(step(st, a, true) == locating_step(st, a, true, h)) by {
        reveal(step);
    }
}

/// Up to the stream the scan and the search agree.
proof fn lemma_framing_agrees(s: Seq<u8>, pos: int)
    requires
        0 <= pos <= s.len() <= u64::MAX,
        plain_framing(s, pos),
        locate(s, pos) matches Ok(r) && tiled(bytes_of(s, r), 0, r.end == s.len()) && split(
            bytes_of(s, r),
        ).fault is None,
    ensures
        ({
            let t = bytes_of(s, locate(s, pos)->Ok_0);
            &&& run(scan_start(), s.skip(pos), true).out == cut(t, split(t).segments)
            &&& run(scan_start(), s.skip(pos), true).fault is None
        }),
    decreases s.len() - pos,
{
    let a = s.skip(pos);
    let st = scan_start();
    let b = box_at(s, pos)->Ok_0;
    let r = locate(s, pos)->Ok_0;
    let t = bytes_of(s, r);
    if pos == s.len() {
        assert(step(st, a, true) == (Step::Finish { out: last_segment(st) })) by {
            reveal(step);
        }
        assert(cut(t, split(t).segments) =~= seq![]);
    } else {
        lemma_framing_step(s, pos);
        assert(seq![] + cut(t, split(t).segments) =~= cut(t, split(t).segments));
        let next = step(st, a, true)->next;
        if b.kind == MDAT {
            assert(a.skip(b.body - pos) =~= s.skip(b.body + 0));
            lemma_stream_agrees(s, b.body, t, be32(s, pos) != 0, 0, None, next);
        } else if opens_stream(s, b) {
            assert(a.skip(0) =~= s.skip(pos + 0));
            lemma_stream_agrees(s, pos, t, false, 0, None, next);
        } else if be32(s, pos) == 0 {
            assert(cut(t, split(t).segments) =~= seq![]);
        } else {
            assert(a.skip(b.end - pos) =~= s.skip(b.end));
            lemma_framing_agrees(s, b.end);
        }
    }
}

/// A scan of a well-formed wrapper hands out exactly the segments that the
/// in-memory reader finds in it, verbatim and in order.
pub proof fn law_scan_matches_split(s: Seq<u8>)
    requires
        s.len() <= u64::MAX,
        plain_framing(s, 0),
        locate(s, 0) matches Ok(r) && tiled(bytes_of(s, r), 0, r.end == s.len()) && split(
            bytes_of(s, r),
        ).fault is None,
    ensures
        ({
            let t = bytes_of(s, locate(s, 0)->Ok_0);
            &&& scan(s).out == cut(t, split(t).segments)
            &&& scan(s).fault is None
        }),
{
    assert(s.skip(0) =~= s);
    lemma_framing_agrees(s, 0);
}

} // verus!
