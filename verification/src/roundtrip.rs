//! Round trips: the canonical segments put into any storage wrapper come out of
//! it again, verbatim and in order.

use vstd::prelude::*;

use crate::boxes::{
    be32, be64, box_at, is_muxl_box, BoxError, BoxSpan, MDAT, MOOF, UUID,
};
use crate::reader::{
    bytes_of, locate, muxl_follows, opens_stream, prepend, segments_at, segments_end, split,
    split_from, splits, wrapped_segments, Fault, Range, SegmentOffset, Split,
};
use crate::stream::{
    cut, join, law_scan_matches_split, lemma_join_split, plain_framing, scan, tiled,
};

verus! {

/// Whether sized boxes that are no `uuid` cover `g` from `pos` to its end.
pub open spec fn plain_boxes(g: Seq<u8>, pos: int) -> bool
    decreases g.len() - pos,
{
    pos == g.len() || (pos + 8 <= g.len() && be32(g, pos) != 0 && (box_at(g, pos) matches Ok(b)
        && b.kind != UUID && plain_boxes(g, b.end)))
}

/// Whether `g` is a canonical segment: a MUXL `uuid` box, after a signing prefix
/// (a `uuid` box of another user type) if it is signed, and then boxes of other
/// types.
pub open spec fn canonical_segment(g: Seq<u8>) -> bool {
    8 <= g.len() && be32(g, 0) != 0 && (box_at(g, 0) matches Ok(b) && b.kind == UUID && (
    (is_muxl_box(g, b) && plain_boxes(g, b.end)) || (!is_muxl_box(g, b) && b.end + 8 <= g.len()
        && be32(g, b.end) != 0 && (box_at(g, b.end) matches Ok(m) && is_muxl_box(g, m)
        && plain_boxes(g, m.end)))))
}

/// Whether all of `segs` are canonical segments.
pub open spec fn all_canonical(segs: Seq<Seq<u8>>) -> bool {
    forall|i: int| 0 <= i < segs.len() ==> canonical_segment(#[trigger] segs[i])
}

/// Whether sized boxes of the container framing cover `f` from `pos` to its end:
/// no `mdat`, no `moof`, and no `uuid` but one of another user type, directly
/// before a box that is no `uuid`.
pub open spec fn framing(f: Seq<u8>, pos: int) -> bool
    decreases f.len() - pos,
{
    pos == f.len() || (pos + 8 <= f.len() && be32(f, pos) != 0 && (box_at(f, pos) matches Ok(b)
        && b.kind != MDAT && b.kind != MOOF && (b.kind == UUID ==> !is_muxl_box(f, b) && b.end + 8
        <= f.len() && be32(f, b.end + 4) != UUID) && framing(f, b.end)))
}

/// `b`, `n` bytes further on.
pub(crate) open spec fn shifted(b: BoxSpan, n: int) -> BoxSpan {
    BoxSpan { kind: b.kind, body: b.body + n, end: b.end + n }
}

/// A sized box is the same box when bytes stand before and after it.
pub(crate) proof fn lemma_box_shift(a: Seq<u8>, g: Seq<u8>, c: Seq<u8>, pos: int)
    requires
        0 <= pos,
        pos + 8 <= g.len(),
        be32(g, pos) != 0,
        box_at(g, pos) is Ok,
    ensures
        ({
            let s = a + g + c;
            let b = box_at(g, pos)->Ok_0;
            &&& box_at(s, a.len() + pos) == Ok::<BoxSpan, BoxError>(shifted(b, a.len() as int))
            &&& is_muxl_box(s, shifted(b, a.len() as int)) == is_muxl_box(g, b)
            &&& be32(s, a.len() + pos) != 0
            &&& be32(s, a.len() + pos + 4) == be32(g, pos + 4)
        }),
{
    let s = a + g + c;
    let n = a.len() as int;
    let b = box_at(g, pos)->Ok_0;
    assert forall|i: int| 0 <= i < g.len() implies #[trigger] g[i] == s[n + i] by {}
    assert(be32(s, n + pos) == be32(g, pos)) by {
        assert(g[pos] == s[n + pos] && g[pos + 1] == s[n + (pos + 1)] && g[pos + 2] == s[n + (pos
            + 2)] && g[pos + 3] == s[n + (pos + 3)]);
    }
    assert(be32(s, n + pos + 4) == be32(g, pos + 4)) by {
        assert(g[pos + 4] == s[n + (pos + 4)] && g[pos + 5] == s[n + (pos + 5)] && g[pos + 6] == s[n
            + (pos + 6)] && g[pos + 7] == s[n + (pos + 7)]);
    }
    if be32(g, pos) == 1 {
        assert(be64(s, n + pos + 8) == be64(g, pos + 8)) by {
            assert(g[pos + 8] == s[n + (pos + 8)] && g[pos + 9] == s[n + (pos + 9)] && g[pos + 10]
                == s[n + (pos + 10)] && g[pos + 11] == s[n + (pos + 11)]);
            assert(g[pos + 12] == s[n + (pos + 12)] && g[pos + 13] == s[n + (pos + 13)] && g[pos
                + 14] == s[n + (pos + 14)] && g[pos + 15] == s[n + (pos + 15)]);
        }
    }
    if b.body + 16 <= b.end {
        assert(s.subrange(b.body + n, b.body + n + 16) =~= g.subrange(b.body, b.body + 16));
    }
}

/// Past its MUXL `uuid` a segment runs on to its end.
proof fn lemma_walk(a: Seq<u8>, g: Seq<u8>, c: Seq<u8>, pos: int, start: int)
    requires
        0 <= pos <= g.len(),
        plain_boxes(g, pos),
    ensures
        split_from(a + g + c, a.len() + pos, Some(start), true) == split_from(
            a + g + c,
            (a.len() + g.len()) as int,
            Some(start),
            true,
        ),
    decreases g.len() - pos,
{
    if pos < g.len() {
        lemma_box_shift(a, g, c, pos);
        let b = box_at(g, pos)->Ok_0;
        lemma_walk(a, g, c, b.end, start);
    }
}

/// A canonical segment that follows another ends it, and runs to its own end.
proof fn lemma_segment(a: Seq<u8>, g: Seq<u8>, c: Seq<u8>, open: Option<int>)
    requires
        canonical_segment(g),
    ensures
        ({
            let s = a + g + c;
            let n = a.len() as int;
            let rest = split_from(s, n + g.len(), Some(n), true);
            split_from(s, n, open, open is Some) == match open {
                Some(o) => prepend(Range { start: o, end: n }, rest),
                None => rest,
            }
        }),
{
    let s = a + g + c;
    let n = a.len() as int;
    let b = box_at(g, 0)->Ok_0;
    lemma_box_shift(a, g, c, 0);
    if is_muxl_box(g, b) {
        lemma_walk(a, g, c, b.end, n);
    } else {
        let m = box_at(g, b.end)->Ok_0;
        lemma_box_shift(a, g, c, b.end);
        lemma_walk(a, g, c, m.end, n);
        assert(split_from(s, n + b.end, Some(n), false) == split_from(s, n + m.end, Some(n), true));
    }
}

/// Where the first `k` segments end.
spec fn mark(segs: Seq<Seq<u8>>, k: int) -> int {
    join(segs.take(k)).len() as int
}

proof fn lemma_marks(segs: Seq<Seq<u8>>, k: int)
    requires
        0 <= k < segs.len(),
    ensures
        mark(segs, k + 1) == mark(segs, k) + segs[k].len(),
        join(segs) == join(segs.take(k)) + segs[k] + join(segs.skip(k + 1)),
        join(segs).subrange(mark(segs, k), mark(segs, k + 1)) == segs[k],
{
    assert(segs.take(k + 1).drop_last() =~= segs.take(k));
    assert(segs.take(k + 1).last() == segs[k]);
    lemma_join_split(segs, k + 1);
    let s = join(segs);
    assert(s.subrange(mark(segs, k), mark(segs, k + 1)) =~= segs[k]);
}

/// Where segments `k` and on lie behind `pre`.
spec fn spans(pre: Seq<u8>, segs: Seq<Seq<u8>>, k: int) -> Seq<Range> {
    Seq::new(
        (segs.len() - k) as nat,
        |j: int|
            Range { start: pre.len() + mark(segs, k + j), end: pre.len() + mark(segs, k + j + 1) },
    )
}

/// What splitting gives from the end of segment `k - 1` on, that segment being
/// the open one.
spec fn rest_of(pre: Seq<u8>, segs: Seq<Seq<u8>>, k: int) -> Split {
    split_from(
        pre + join(segs),
        pre.len() + mark(segs, k),
        Some(pre.len() + mark(segs, k - 1)),
        true,
    )
}

proof fn lemma_around(pre: Seq<u8>, segs: Seq<Seq<u8>>, k: int)
    requires
        0 <= k < segs.len(),
    ensures
        pre + join(segs.take(k)) + segs[k] + join(segs.skip(k + 1)) == pre + join(segs),
        mark(segs, k + 1) == mark(segs, k) + segs[k].len(),
{
    lemma_marks(segs, k);
    assert(pre + join(segs.take(k)) + segs[k] + join(segs.skip(k + 1)) =~= pre + (join(segs.take(k))
        + segs[k] + join(segs.skip(k + 1))));
}

proof fn lemma_rest_step(pre: Seq<u8>, segs: Seq<Seq<u8>>, k: int)
    requires
        all_canonical(segs),
        1 <= k < segs.len(),
    ensures
        rest_of(pre, segs, k) == prepend(
            Range { start: pre.len() + mark(segs, k - 1), end: pre.len() + mark(segs, k) },
            rest_of(pre, segs, k + 1),
        ),
{
    lemma_around(pre, segs, k);
    lemma_segment(
        pre + join(segs.take(k)),
        segs[k],
        join(segs.skip(k + 1)),
        Some(pre.len() + mark(segs, k - 1)),
    );
}

proof fn lemma_rest_end(pre: Seq<u8>, segs: Seq<Seq<u8>>)
    requires
        segs.len() > 0,
    ensures
        rest_of(pre, segs, segs.len() as int).fault is None,
        rest_of(pre, segs, segs.len() as int).segments == spans(pre, segs, segs.len() - 1),
{
    let n = segs.len() as int;
    assert(segs.take(n) =~= segs);
    assert(rest_of(pre, segs, n).segments =~= spans(pre, segs, n - 1));
}

proof fn lemma_rest(pre: Seq<u8>, segs: Seq<Seq<u8>>, k: int)
    requires
        all_canonical(segs),
        1 <= k <= segs.len(),
    ensures
        rest_of(pre, segs, k).fault is None,
        rest_of(pre, segs, k).segments == spans(pre, segs, k - 1),
    decreases segs.len() - k,
{
    if k == segs.len() {
        lemma_rest_end(pre, segs);
    } else {
        lemma_rest_step(pre, segs, k);
        lemma_rest(pre, segs, k + 1);
        assert(rest_of(pre, segs, k).segments =~= spans(pre, segs, k - 1));
    }
}

/// What splitting gives from the start of segment `k` on, nothing being open.
spec fn found_from(pre: Seq<u8>, segs: Seq<Seq<u8>>, k: int) -> Split {
    split_from(pre + join(segs), pre.len() + mark(segs, k), None, false)
}

/// Splitting from the start of segment `k` on finds it and all behind it.
proof fn lemma_found(pre: Seq<u8>, segs: Seq<Seq<u8>>, k: int)
    requires
        all_canonical(segs),
        0 <= k <= segs.len(),
    ensures
        found_from(pre, segs, k).fault is None,
        found_from(pre, segs, k).segments == spans(pre, segs, k),
{
    if k == segs.len() {
        assert(segs.take(k) =~= segs);
        assert(found_from(pre, segs, k).segments =~= spans(pre, segs, k));
    } else {
        lemma_rest(pre, segs, k + 1);
        lemma_around(pre, segs, k);
        lemma_segment(pre + join(segs.take(k)), segs[k], join(segs.skip(k + 1)), None);
    }
}

/// Splitting a stream of canonical segments gives them back, verbatim and in
/// order.
pub proof fn law_split_joined(segs: Seq<Seq<u8>>)
    requires
        all_canonical(segs),
    ensures
        split(join(segs)).fault is None,
        cut(join(segs), split(join(segs)).segments) == segs,
{
    let s = join(segs);
    lemma_found(seq![], segs, 0);
    assert(segs.take(0) =~= seq![]);
    assert(seq![] + s =~= s);
    assert forall|i: int| 0 <= i < segs.len() implies #[trigger] cut(s, split(s).segments)[i]
        == segs[i] by {
        lemma_marks(segs, i);
    }
    assert(cut(s, split(s).segments) =~= segs);
}

/// The framing before a segment stream is passed over.
proof fn lemma_locate_framing(f: Seq<u8>, rest: Seq<u8>, pos: int)
    requires
        0 <= pos <= f.len(),
        framing(f, pos),
    ensures
        locate(f + rest, pos) == locate(f + rest, f.len() as int),
        plain_framing(f + rest, f.len() as int) ==> plain_framing(f + rest, pos),
    decreases f.len() - pos,
{
    if pos < f.len() {
        let b = box_at(f, pos)->Ok_0;
        lemma_box_shift(seq![], f, rest, pos);
        assert(seq![] + f + rest =~= f + rest);
        let s = f + rest;
        if b.kind == UUID {
            assert(be32(s, b.end + 4) == be32(f, b.end + 4)) by {
                assert(s[b.end + 4] == f[b.end + 4] && s[b.end + 5] == f[b.end + 5] && s[b.end + 6]
                    == f[b.end + 6] && s[b.end + 7] == f[b.end + 7]);
            }
            assert(!muxl_follows(s, b.end));
        }
        lemma_locate_framing(f, rest, b.end);
    }
}

/// A canonical segment after the framing opens the segment stream.
proof fn lemma_locate_segment(f: Seq<u8>, g: Seq<u8>, tail: Seq<u8>)
    requires
        canonical_segment(g),
    ensures
        ({
            let s = f + g + tail;
            &&& locate(s, f.len() as int) == Ok::<Range, Fault>(
                Range { start: f.len() as int, end: s.len() as int },
            )
            &&& plain_framing(s, f.len() as int)
        }),
{
    let s = f + g + tail;
    let b = box_at(g, 0)->Ok_0;
    lemma_box_shift(f, g, tail, 0);
    if !is_muxl_box(g, b) {
        lemma_box_shift(f, g, tail, b.end);
        assert(muxl_follows(s, f.len() + b.end));
    }
}

/// A stream of canonical segments begins where its first one does, and an empty one
/// where the framing ends.
proof fn lemma_locate_segments(f: Seq<u8>, segs: Seq<Seq<u8>>)
    requires
        all_canonical(segs),
    ensures
        ({
            let s = f + join(segs);
            &&& locate(s, f.len() as int) == Ok::<Range, Fault>(
                Range { start: f.len() as int, end: s.len() as int },
            )
            &&& plain_framing(s, f.len() as int)
        }),
{
    if segs.len() > 0 {
        let g = segs[0];
        let tail = join(segs.skip(1));
        assert(join(segs) == g + tail) by {
            lemma_marks(segs, 0);
            assert(segs.take(0) =~= seq![]);
            assert(seq![] + g + tail =~= g + tail);
        }
        lemma_concat(f, g, tail);
        lemma_locate_segment(f, g, tail);
    }
}

proof fn lemma_concat(a: Seq<u8>, b: Seq<u8>, c: Seq<u8>)
    ensures
        a + (b + c) == a + b + c,
{
    assert(a + (b + c) =~= a + b + c);
}

/// Boxes that cover a segment cover it inside a stream.
proof fn lemma_tiled_walk(a: Seq<u8>, g: Seq<u8>, c: Seq<u8>, pos: int, eof: bool)
    requires
        0 <= pos <= g.len(),
        plain_boxes(g, pos),
        tiled(a + g + c, (a.len() + g.len()) as int, eof),
    ensures
        tiled(a + g + c, a.len() + pos, eof),
    decreases g.len() - pos,
{
    if pos < g.len() {
        lemma_box_shift(a, g, c, pos);
        let b = box_at(g, pos)->Ok_0;
        lemma_tiled_walk(a, g, c, b.end, eof);
    }
}

#[verifier::spinoff_prover]
#[verifier::rlimit(40)]
proof fn lemma_tiled(segs: Seq<Seq<u8>>, k: int, eof: bool)
    requires
        all_canonical(segs),
        0 <= k <= segs.len(),
    ensures
        tiled(join(segs), mark(segs, k), eof),
    decreases segs.len() - k,
{
    if k == segs.len() {
        assert(segs.take(k) =~= segs);
    } else {
        lemma_tiled(segs, k + 1, eof);
        lemma_marks(segs, k);
        let a = join(segs.take(k));
        let g = segs[k];
        let c = join(segs.skip(k + 1));
        let b = box_at(g, 0)->Ok_0;
        lemma_box_shift(a, g, c, 0);
        if is_muxl_box(g, b) {
            lemma_tiled_walk(a, g, c, b.end, eof);
        } else {
            let m = box_at(g, b.end)->Ok_0;
            lemma_box_shift(a, g, c, b.end);
            lemma_tiled_walk(a, g, c, m.end, eof);
            assert(tiled(join(segs), a.len() + b.end, eof));
        }
    }
}

/// Canonical segments come out of a fragmented MP4 (framing, then the segments)
/// verbatim and in order; none out of one that holds none yet. With no framing this
/// is a bare segment stream.
pub proof fn law_unwrap_fmp4(f: Seq<u8>, segs: Seq<Seq<u8>>)
    requires
        framing(f, 0),
        all_canonical(segs),
    ensures
        locate(f + join(segs), 0) == Ok::<Range, Fault>(
            Range { start: f.len() as int, end: (f.len() + join(segs).len()) as int },
        ),
        wrapped_segments(f + join(segs)) == segs,
        splits(f + join(segs)),
        split(join(segs)).fault is None,
{
    let s = f + join(segs);
    lemma_locate_framing(f, join(segs), 0);
    lemma_locate_segments(f, segs);
    law_split_joined(segs);
    let t = bytes_of(s, locate(s, 0)->Ok_0);
    assert(t =~= join(segs));
    assert(wrapped_segments(s) =~= cut(t, split(t).segments));
}

/// Whether `h` is the header of an `mdat` box around `n` bytes.
pub open spec fn mdat_header(h: Seq<u8>, n: int) -> bool {
    ||| h.len() == 8 && be32(h, 0) == 8 + n && be32(h, 0) > 1 && be32(h, 4) == MDAT
    ||| h.len() == 16 && be32(h, 0) == 1 && be32(h, 4) == MDAT && be64(h, 8) == 16 + n
}

proof fn lemma_locate_mdat(f: Seq<u8>, h: Seq<u8>, body: Seq<u8>, tail: Seq<u8>)
    requires
        mdat_header(h, body.len() as int),
    ensures
        ({
            let s = f + (h + body + tail);
            let start = (f.len() + h.len()) as int;
            &&& locate(s, f.len() as int) == Ok::<Range, Fault>(
                Range { start, end: start + body.len() },
            )
            &&& plain_framing(s, f.len() as int)
            &&& bytes_of(s, Range { start, end: start + body.len() }) == body
        }),
{
    let g = h + body;
    let s = f + (h + body + tail);
    assert(be32(g, 0) == be32(h, 0) && be32(g, 4) == be32(h, 4)) by {
        assert(g[0] == h[0] && g[1] == h[1] && g[2] == h[2] && g[3] == h[3]);
        assert(g[4] == h[4] && g[5] == h[5] && g[6] == h[6] && g[7] == h[7]);
    }
    if h.len() == 16 {
        assert(be64(g, 8) == be64(h, 8)) by {
            assert(g[8] == h[8] && g[9] == h[9] && g[10] == h[10] && g[11] == h[11]);
            assert(g[12] == h[12] && g[13] == h[13] && g[14] == h[14] && g[15] == h[15]);
        }
    }
    lemma_box_shift(f, g, tail, 0);
    assert(f + g + tail =~= s);
    let start = (f.len() + h.len()) as int;
    assert(bytes_of(s, Range { start, end: start + body.len() }) =~= body);
}

/// Canonical segments come out of a flat MP4 (framing, then an `mdat` envelope
/// around the segments) verbatim and in order, whatever follows the envelope.
pub proof fn law_unwrap_flat(f: Seq<u8>, h: Seq<u8>, segs: Seq<Seq<u8>>, tail: Seq<u8>)
    requires
        framing(f, 0),
        all_canonical(segs),
        mdat_header(h, join(segs).len() as int),
    ensures
        ({
            let s = f + (h + join(segs) + tail);
            &&& locate(s, 0) is Ok
            &&& locate(s, 0)->Ok_0.start == f.len() + h.len()
            &&& wrapped_segments(s) == segs
            &&& splits(s)
            &&& split(join(segs)).fault is None
        }),
{
    let body = join(segs);
    let s = f + (h + body + tail);
    lemma_locate_framing(f, h + body + tail, 0);
    lemma_locate_mdat(f, h, body, tail);
    law_split_joined(segs);
    let t = bytes_of(s, locate(s, 0)->Ok_0);
    assert(wrapped_segments(s) =~= cut(t, split(t).segments));
}

/// A bare stream of canonical segments is its own segment stream.
pub proof fn law_unwrap_bare(segs: Seq<Seq<u8>>)
    requires
        all_canonical(segs),
    ensures
        wrapped_segments(join(segs)) == segs,
        locate(join(segs), 0) == Ok::<Range, Fault>(
            Range { start: 0, end: join(segs).len() as int },
        ),
{
    law_unwrap_fmp4(seq![], segs);
    assert(seq![] + join(segs) =~= join(segs));
}

/// A fragmented MP4 can be appended to at every moment, from its framing alone on:
/// more segments behind it are recovered behind those that it held, and nothing
/// before them is rewritten.
pub proof fn law_fmp4_is_appendable(f: Seq<u8>, segs: Seq<Seq<u8>>, more: Seq<Seq<u8>>)
    requires
        framing(f, 0),
        all_canonical(segs),
        all_canonical(more),
    ensures
        wrapped_segments(f + join(segs) + join(more)) == segs + more,
        wrapped_segments(f + join(segs)) == segs,
{
    let all = segs + more;
    assert forall|i: int| 0 <= i < all.len() implies canonical_segment(#[trigger] all[i]) by {
        if i < segs.len() {
            assert(all[i] == segs[i]);
        } else {
            assert(all[i] == more[i - segs.len()]);
        }
    }
    lemma_join_split(all, segs.len() as int);
    assert(all.take(segs.len() as int) =~= segs);
    assert(all.skip(segs.len() as int) =~= more);
    lemma_concat(f, join(segs), join(more));
    law_unwrap_fmp4(f, all);
    law_unwrap_fmp4(f, segs);
}

/// The streaming scan recovers the segments of a fragmented MP4, or of a bare
/// stream, verbatim and in order.
pub proof fn law_scan_fmp4(f: Seq<u8>, segs: Seq<Seq<u8>>)
    requires
        framing(f, 0),
        all_canonical(segs),
        f.len() + join(segs).len() <= u64::MAX,
    ensures
        scan(f + join(segs)).out == segs,
        scan(f + join(segs)).fault is None,
{
    let s = f + join(segs);
    law_unwrap_fmp4(f, segs);
    lemma_locate_framing(f, join(segs), 0);
    lemma_locate_segments(f, segs);
    let t = bytes_of(s, locate(s, 0)->Ok_0);
    assert(t =~= join(segs));
    lemma_tiled(segs, 0, true);
    assert(segs.take(0) =~= seq![]);
    law_scan_matches_split(s);
    law_split_joined(segs);
}

/// The streaming scan recovers the segments of a flat MP4 verbatim and in order,
/// whatever follows the envelope.
pub proof fn law_scan_flat(f: Seq<u8>, h: Seq<u8>, segs: Seq<Seq<u8>>, tail: Seq<u8>)
    requires
        framing(f, 0),
        all_canonical(segs),
        mdat_header(h, join(segs).len() as int),
        f.len() + h.len() + join(segs).len() + tail.len() <= u64::MAX,
    ensures
        scan(f + (h + join(segs) + tail)).out == segs,
        scan(f + (h + join(segs) + tail)).fault is None,
{
    let body = join(segs);
    let s = f + (h + body + tail);
    lemma_locate_framing(f, h + body + tail, 0);
    lemma_locate_mdat(f, h, body, tail);
    let r = locate(s, 0)->Ok_0;
    lemma_tiled(segs, 0, r.end == s.len());
    assert(segs.take(0) =~= seq![]);
    law_split_joined(segs);
    law_scan_matches_split(s);
}

/// Whether `w` is one sized `uuid` box of another user type than MUXL's.
pub open spec fn foreign_uuid(w: Seq<u8>) -> bool {
    w.len() >= 8 && be32(w, 0) != 0 && (box_at(w, 0) matches Ok(b) && b.kind == UUID
        && !is_muxl_box(w, b) && b.end == w.len())
}

/// A box of `c` is the same box whatever stands before `c`.
proof fn lemma_box_moved(a: Seq<u8>, a2: Seq<u8>, c: Seq<u8>, p: int)
    requires
        0 <= p,
    ensures
        ({
            let d = a2.len() - a.len();
            let x = box_at(a + c, a.len() + p);
            let y = box_at(a2 + c, a2.len() + p);
            match x {
                Ok(b) => y == Ok::<BoxSpan, BoxError>(shifted(b, d)) && is_muxl_box(a + c, b)
                    == is_muxl_box(a2 + c, shifted(b, d)),
                Err(e) => y == Err::<BoxSpan, BoxError>(e),
            }
        }),
{
    let s = a + c;
    let t = a2 + c;
    let n = a.len() as int;
    let m = a2.len() as int;
    assert forall|i: int| 0 <= i < c.len() implies #[trigger] c[i] == s[n + i] && c[i] == t[m + i] by {
    }
    if p + 8 <= c.len() {
        assert(be32(s, n + p) == be32(t, m + p)) by {
            assert(c[p] == s[n + p] && c[p + 1] == s[n + (p + 1)] && c[p + 2] == s[n + (p + 2)] && c[p
                + 3] == s[n + (p + 3)]);
        }
        assert(be32(s, n + p + 4) == be32(t, m + p + 4)) by {
            assert(c[p + 4] == s[n + (p + 4)] && c[p + 5] == s[n + (p + 5)] && c[p + 6] == s[n + (p
                + 6)] && c[p + 7] == s[n + (p + 7)]);
        }
    }
    if p + 16 <= c.len() {
        assert(be64(s, n + p + 8) == be64(t, m + p + 8)) by {
            assert(c[p + 8] == s[n + (p + 8)] && c[p + 9] == s[n + (p + 9)] && c[p + 10] == s[n + (p
                + 10)] && c[p + 11] == s[n + (p + 11)]);
            assert(c[p + 12] == s[n + (p + 12)] && c[p + 13] == s[n + (p + 13)] && c[p + 14] == s[n
                + (p + 14)] && c[p + 15] == s[n + (p + 15)]);
        }
    }
    if let Ok(b) = box_at(s, n + p) {
        if b.body + 16 <= b.end {
            assert(s.subrange(b.body, b.body + 16) =~= t.subrange(b.body + m - n, b.body + m - n + 16));
        }
    }
}

/// Whether a box of `c` opens a stream does not depend on what stands before `c`.
proof fn lemma_opens_moved(a: Seq<u8>, a2: Seq<u8>, c: Seq<u8>, p: int)
    requires
        0 <= p,
        box_at(a + c, a.len() + p) is Ok,
    ensures
        ({
            let b = box_at(a + c, a.len() + p)->Ok_0;
            opens_stream(a + c, b) == opens_stream(a2 + c, shifted(b, a2.len() - a.len()))
        }),
{
    lemma_box_moved(a, a2, c, p);
    let b = box_at(a + c, a.len() + p)->Ok_0;
    lemma_box_moved(a, a2, c, b.end - a.len());
}

/// Where a stream lies in `c` does not depend on what stands before `c`.
#[verifier::spinoff_prover]
proof fn lemma_locate_moved(a: Seq<u8>, a2: Seq<u8>, c: Seq<u8>, p: int)
    requires
        0 <= p <= c.len(),
    ensures
        locate(a + c, a.len() + p) matches Ok(r) ==> {
            ||| r.start == 0 && r.end == a.len() + c.len()
            ||| {
                let d = a2.len() - a.len();
                &&& a.len() <= r.start <= r.end <= a.len() + c.len()
                &&& locate(a2 + c, a2.len() + p) == Ok::<Range, Fault>(
                    Range { start: r.start + d, end: r.end + d },
                )
            }
        },
    decreases c.len() - p,
{
    let s = a + c;
    let t = a2 + c;
    let n = a.len() as int;
    let m = a2.len() as int;
    if p + 8 <= c.len() {
        lemma_box_moved(a, a2, c, p);
        if let Ok(b) = box_at(s, n + p) {
            lemma_opens_moved(a, a2, c, p);
            if b.kind != MDAT && !opens_stream(s, b) {
                lemma_locate_moved(a, a2, c, b.end - n);
                assert(locate(s, n + p) == locate(s, b.end));
                assert(locate(t, m + p) == locate(t, b.end - n + m));
            }
        }
    }
}

/// A framing box of another user type is passed over where no `uuid` follows it.
proof fn lemma_past_wrapper_uuid(f: Seq<u8>, w: Seq<u8>, rest: Seq<u8>)
    requires
        framing(f, 0),
        foreign_uuid(w),
        rest.len() >= 8,
        be32(rest, 4) != UUID,
    ensures
        locate(f + w + rest, 0) == locate(f + w + rest, (f.len() + w.len()) as int),
{
    let t = f + w + rest;
    let n = (f.len() + w.len()) as int;
    lemma_locate_framing(f, w + rest, 0);
    lemma_concat(f, w, rest);
    lemma_box_shift(f, w, rest, 0);
    assert(be32(t, n + 4) == be32(rest, 4)) by {
        assert(t[n + 4] == rest[4] && t[n + 5] == rest[5] && t[n + 6] == rest[6] && t[n + 7]
            == rest[7]);
    }
    assert(!muxl_follows(t, n));
}

/// An input that begins with a framing box is no bare segment stream.
proof fn lemma_framing_is_no_stream(f: Seq<u8>, rest: Seq<u8>)
    requires
        f.len() > 0,
        framing(f, 0),
        be32(f, 4) != UUID,
    ensures
        split(f + rest).fault is Some,
{
    lemma_box_shift(seq![], f, rest, 0);
    assert(seq![] + f + rest =~= f + rest);
}

/// A wrapper's `uuid` box moves the stream, and leaves its bytes.
#[verifier::spinoff_prover]
proof fn lemma_wrapper_uuid_moves(f: Seq<u8>, w: Seq<u8>, rest: Seq<u8>)
    requires
        framing(f, 0),
        foreign_uuid(w),
        rest.len() >= 8,
        be32(rest, 4) != UUID,
        locate(f + rest, 0) matches Ok(r) && !(r.start == 0 && r.end == f.len() + rest.len()),
    ensures
        locate(f + w + rest, 0) is Ok,
        bytes_of(f + rest, locate(f + rest, 0)->Ok_0) == bytes_of(
            f + w + rest,
            locate(f + w + rest, 0)->Ok_0,
        ),
{
    let s = f + rest;
    let t = f + w + rest;
    lemma_locate_framing(f, rest, 0);
    lemma_past_wrapper_uuid(f, w, rest);
    lemma_locate_moved(f, f + w, rest, 0);
    let r = locate(s, 0)->Ok_0;
    let q = Range { start: r.start + w.len(), end: r.end + w.len() };
    assert(bytes_of(s, r) =~= bytes_of(t, q));
}

/// A `uuid` box of the wrapper, between the framing (an `ftyp` box, say) and the
/// next box, changes nothing: the same segments are recovered. `rest` begins with a
/// box that is no `uuid`, such as the `moov`.
pub proof fn law_wrapper_uuid_changes_nothing(f: Seq<u8>, w: Seq<u8>, rest: Seq<u8>)
    requires
        f.len() > 0,
        framing(f, 0),
        be32(f, 4) != UUID,
        foreign_uuid(w),
        rest.len() >= 8,
        be32(rest, 4) != UUID,
        splits(f + rest),
    ensures
        splits(f + w + rest),
        wrapped_segments(f + w + rest) == wrapped_segments(f + rest),
{
    let s = f + rest;
    let t = f + w + rest;
    let r = locate(s, 0)->Ok_0;
    assert(!(r.start == 0 && r.end == s.len())) by {
        lemma_framing_is_no_stream(f, rest);
        if r.start == 0 && r.end == s.len() {
            assert(bytes_of(s, r) =~= s);
        }
    }
    lemma_wrapper_uuid_moves(f, w, rest);
    lemma_same_stream(s, t);
}

/// Where the stream is the same, so are the segments.
proof fn lemma_same_stream(s: Seq<u8>, t: Seq<u8>)
    requires
        splits(s),
        locate(t, 0) is Ok,
        bytes_of(s, locate(s, 0)->Ok_0) == bytes_of(t, locate(t, 0)->Ok_0),
    ensures
        splits(t),
        wrapped_segments(t) == wrapped_segments(s),
{
}

proof fn lemma_mark_range(segs: Seq<Seq<u8>>, i: int, k: int)
    requires
        0 <= i <= k <= segs.len(),
    ensures
        mark(segs, i) <= mark(segs, k) <= join(segs).len(),
        join(segs).subrange(mark(segs, i), mark(segs, k)) == join(segs.subrange(i, k)),
{
    let head = segs.take(k);
    lemma_join_split(segs, k);
    lemma_join_split(head, i);
    assert(head.take(i) =~= segs.take(i));
    assert(head.skip(i) =~= segs.subrange(i, k));
    assert(join(segs).subrange(mark(segs, i), mark(segs, k)) =~= join(segs.subrange(i, k)));
}

/// Where `count` segments from segment `i` on end.
proof fn lemma_ends(pre: Seq<u8>, segs: Seq<Seq<u8>>, i: int, offset: int, count: Option<u64>)
    requires
        all_canonical(segs),
        0 <= i <= segs.len(),
    ensures
        ({
            let got = segments_end(pre + join(segs), pre.len() + mark(segs, i), offset, count);
            let last: int = match count {
                Some(n) => i + n,
                None => segs.len() as int,
            };
            if last <= segs.len() {
                got == Ok::<int, Seq<char>>(pre.len() + mark(segs, last))
            } else {
                got is Err
            }
        }),
{
    lemma_found(pre, segs, i);
    assert(segs.take(segs.len() as int) =~= segs);
    if i < segs.len() {
        lemma_marks(segs, i);
        lemma_mark_range(segs, i + 1, segs.len() as int);
        assert(canonical_segment(segs[i]));
    }
}

/// A segment begins before the end of its stream.
proof fn lemma_mark_inside(segs: Seq<Seq<u8>>, i: int)
    requires
        all_canonical(segs),
        0 <= i < segs.len(),
    ensures
        0 <= mark(segs, i) < join(segs).len(),
{
    lemma_marks(segs, i);
    lemma_mark_range(segs, i + 1, segs.len() as int);
    assert(canonical_segment(segs[i]));
}

/// What is read from a start inside the stream ends with the stream.
proof fn lemma_reads_inside(
    s: Seq<u8>,
    base: int,
    end: int,
    offset: SegmentOffset,
    count: Option<u64>,
)
    requires
        locate(s, 0) == Ok::<Range, Fault>(Range { start: base, end }),
        0 <= base <= end <= s.len(),
        ({
            let start = match offset {
                SegmentOffset::Stream(o) => base + o,
                SegmentOffset::File(o) => o as int,
            };
            start < end
        }),
    ensures
        ({
            let start = match offset {
                SegmentOffset::Stream(o) => base + o,
                SegmentOffset::File(o) => o as int,
            };
            segments_at(s, offset, count) == match segments_end(
                s.take(end),
                start,
                offset.value(),
                count,
            ) {
                Ok(e) => Ok::<Range, Seq<char>>(Range { start, end: e }),
                Err(t) => Err(t),
            }
        }),
{
}

/// Segments are read out of a flat MP4 by where the first of them starts in the
/// stream, or in the file: `count` of them, or all that follow, verbatim, whatever
/// stands behind the envelope. More than there are is an error.
#[verifier::spinoff_prover]
#[verifier::rlimit(40)]
pub proof fn law_read_flat(
    f: Seq<u8>,
    h: Seq<u8>,
    segs: Seq<Seq<u8>>,
    tail: Seq<u8>,
    i: int,
    offset: u64,
    count: Option<u64>,
)
    requires
        framing(f, 0),
        all_canonical(segs),
        mdat_header(h, join(segs).len() as int),
        0 <= i < segs.len(),
        offset == join(segs.take(i)).len(),
    ensures
        ({
            let s = f + (h + join(segs) + tail);
            let got = segments_at(s, SegmentOffset::Stream(offset), count);
            let there = segments_at(
                s,
                SegmentOffset::File((f.len() + h.len() + offset) as u64),
                count,
            );
            let last: int = match count {
                Some(n) => i + n,
                None => segs.len() as int,
            };
            if last <= segs.len() {
                &&& got matches Ok(r) && bytes_of(s, r) == join(segs.subrange(i, last))
                &&& f.len() + h.len() + offset <= u64::MAX ==> there == got
            } else {
                &&& got is Err
                &&& f.len() + h.len() + offset <= u64::MAX ==> there is Err
            }
        }),
{
    let body = join(segs);
    let s = f + (h + body + tail);
    let pre = f + h;
    let end = (pre.len() + body.len()) as int;
    let start = pre.len() + mark(segs, i);
    let last: int = match count {
        Some(n) => i + n,
        None => segs.len() as int,
    };
    lemma_locate_framing(f, h + body + tail, 0);
    lemma_locate_mdat(f, h, body, tail);
    assert(s.take(end) =~= pre + body);
    lemma_mark_inside(segs, i);
    lemma_reads_inside(s, pre.len() as int, end, SegmentOffset::Stream(offset), count);
    lemma_ends(pre, segs, i, offset as int, count);
    if start <= u64::MAX {
        let there = SegmentOffset::File(start as u64);
        lemma_reads_inside(s, pre.len() as int, end, there, count);
        lemma_ends(pre, segs, i, start, count);
    }
    if last <= segs.len() {
        lemma_mark_range(segs, i, last);
        let r = Range { start, end: pre.len() + mark(segs, last) };
        assert(bytes_of(s, r) =~= body.subrange(mark(segs, i), mark(segs, last)));
    }
}

} // verus!
