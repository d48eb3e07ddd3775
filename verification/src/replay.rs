//! What holds of whole event streams.

use std::collections::BTreeMap;

use vstd::prelude::*;

use crate::catalog::{Catalog, CatalogView};
use crate::cbor::{init_event, tells, CborEvent, CborEventView, GopEvent, SegmenterEvent};
use crate::error::Error;
use crate::events::{
    accepted, all_events, arrives, begins_gop, catalog_ids, closed, closes_after, closing_events,
    events_so_far, handed, holds, is_read, next_events, read_parts, realized, realizes, refuses,
    state_after, stopped, streamed, unreadable, EventState, Part, PlannedView,
};
use crate::metafile::{are_metafiles, is_metafile, MetafileSegment};
use crate::moof::{indexed, IndexView};
use crate::reader::{bytes_of, locate, split, splits, wrapped_segments};
use crate::segment::same_catalog;
use crate::stream::{cut, law_scan_matches_split, plain_framing, scan, tiled};
use crate::text::{decimal, law_decimal_injective};

verus! {

/// Whether the catalog of the same segment is read alike every time.
pub open spec fn decodes_alike<D: Fn(&[u8]) -> Result<Catalog, Error>>(decode: D) -> bool {
    forall|a: &[u8], b: &[u8], x: Result<Catalog, Error>, y: Result<Catalog, Error>|
        #![trigger call_ensures(decode, (a,), x), call_ensures(decode, (b,), y)]
        a@ == b@ && call_ensures(decode, (a,), x) && call_ensures(decode, (b,), y) ==> match (x, y) {
            (Ok(p), Ok(q)) => same_catalog(p, q),
            (Err(p), Err(q)) => p@ == q@,
            _ => false,
        }
}

/// Whether the init segment of the same catalog is built alike every time.
pub open spec fn inits_alike<I: Fn(&Catalog) -> Result<Vec<u8>, Error>>(build_init: I) -> bool {
    forall|a: &Catalog, b: &Catalog, x: Result<Vec<u8>, Error>, y: Result<Vec<u8>, Error>|
        #![trigger call_ensures(build_init, (a,), x), call_ensures(build_init, (b,), y)]
        a@ == b@ && call_ensures(build_init, (a,), x) && call_ensures(build_init, (b,), y)
            ==> match (x, y) {
            (Ok(p), Ok(q)) => p@ == q@,
            (Err(p), Err(q)) => p@ == q@,
            _ => false,
        }
}

/// The bytes of the init segments of tracks.
pub open spec fn inits_bytes(m: BTreeMap<u32, Vec<u8>>) -> Map<u32, Seq<u8>> {
    m@.map_values(|v: Vec<u8>| v@)
}

/// Whether the init segments of the tracks of the same catalog are built alike every
/// time.
pub open spec fn track_inits_alike<T: Fn(&Catalog) -> Result<BTreeMap<u32, Vec<u8>>, Error>>(
    build_track_inits: T,
) -> bool {
    forall|
        a: &Catalog,
        b: &Catalog,
        x: Result<BTreeMap<u32, Vec<u8>>, Error>,
        y: Result<BTreeMap<u32, Vec<u8>>, Error>,
    |
        #![trigger call_ensures(build_track_inits, (a,), x), call_ensures(build_track_inits, (b,), y)]
        a@ == b@ && call_ensures(build_track_inits, (a,), x) && call_ensures(
            build_track_inits,
            (b,),
            y,
        ) ==> match (x, y) {
            (Ok(p), Ok(q)) => inits_bytes(p) == inits_bytes(q),
            (Err(p), Err(q)) => p@ == q@,
            _ => false,
        }
}

/// Whether the same was read out of the same segments.
spec fn same_parts(a: Seq<Part>, b: Seq<Part>) -> bool {
    a.len() == b.len() && forall|i: int|
        0 <= i < a.len() ==> (#[trigger] a[i]).data == b[i].data && a[i].index == b[i].index
            && same_catalog(a[i].catalog, b[i].catalog)
}

proof fn lemma_same_states(a: Seq<Part>, b: Seq<Part>)
    requires
        same_parts(a, b),
    ensures
        state_after(a) == state_after(b),
        events_so_far(a) == events_so_far(b),
    decreases a.len(),
{
    if a.len() > 0 {
        assert(same_parts(a.drop_last(), b.drop_last()));
        lemma_same_states(a.drop_last(), b.drop_last());
        assert(a[a.len() - 1].data == b[a.len() - 1].data);
    }
}

proof fn lemma_same_parts<D: Fn(&[u8]) -> Result<Catalog, Error>>(
    decode: D,
    segs: Seq<Seq<u8>>,
    a: Seq<Part>,
    b: Seq<Part>,
)
    requires
        decodes_alike(decode),
        read_parts(decode, segs, a),
        read_parts(decode, segs, b),
        a.len() == b.len(),
    ensures
        same_parts(a, b),
{
    assert forall|i: int| 0 <= i < a.len() implies (#[trigger] a[i]).data == b[i].data && a[i].index
        == b[i].index && same_catalog(a[i].catalog, b[i].catalog) by {
        let data = segs[i];
        assert(is_read(decode, data, a[i]));
        assert(is_read(decode, data, b[i]));
        let p = choose|d: &[u8]|
            d@ == data && #[trigger] call_ensures(decode, (d,), Ok::<Catalog, Error>(a[i].catalog));
        let q = choose|d: &[u8]|
            d@ == data && #[trigger] call_ensures(decode, (d,), Ok::<Catalog, Error>(b[i].catalog));
        assert(p@ == q@);
    }
}

proof fn lemma_same_event<
    I: Fn(&Catalog) -> Result<Vec<u8>, Error>,
    T: Fn(&Catalog) -> Result<BTreeMap<u32, Vec<u8>>, Error>,
>(
    build_init: I,
    build_track_inits: T,
    p: PlannedView,
    a: CborEvent,
    b: CborEvent,
)
    requires
        inits_alike(build_init),
        track_inits_alike(build_track_inits),
        realizes(build_init, build_track_inits, p, a),
        realizes(build_init, build_track_inits, p, b),
    ensures
        a@ == b@,
{
    if let PlannedView::Init(c) = p {
        let (c1, m1, d1) = choose|cat: Catalog, inits: BTreeMap<u32, Vec<u8>>, data: Vec<u8>|
            {
                &&& cat@ == c
                &&& #[trigger] call_ensures(
                    build_track_inits,
                    (&cat,),
                    Ok::<BTreeMap<u32, Vec<u8>>, Error>(inits),
                )
                &&& #[trigger] call_ensures(build_init, (&cat,), Ok::<Vec<u8>, Error>(data))
                &&& a@ == init_event(c, data@, Ok::<BTreeMap<u32, Vec<u8>>, Error>(inits))
            };
        let (c2, m2, d2) = choose|cat: Catalog, inits: BTreeMap<u32, Vec<u8>>, data: Vec<u8>|
            {
                &&& cat@ == c
                &&& #[trigger] call_ensures(
                    build_track_inits,
                    (&cat,),
                    Ok::<BTreeMap<u32, Vec<u8>>, Error>(inits),
                )
                &&& #[trigger] call_ensures(build_init, (&cat,), Ok::<Vec<u8>, Error>(data))
                &&& b@ == init_event(c, data@, Ok::<BTreeMap<u32, Vec<u8>>, Error>(inits))
            };
        assert(inits_bytes(m1) == inits_bytes(m2));
        assert(d1@ == d2@);
    }
}

/// Contents of the events in `v`.
pub open spec fn cbor_views(v: Seq<CborEvent>) -> Seq<CborEventView> {
    v.map_values(|e: CborEvent| e@)
}

/// The events of a stream of segments are the same every time.
pub proof fn law_events_are_determined<
    D: Fn(&[u8]) -> Result<Catalog, Error>,
    I: Fn(&Catalog) -> Result<Vec<u8>, Error>,
    T: Fn(&Catalog) -> Result<BTreeMap<u32, Vec<u8>>, Error>,
>(
    decode: D,
    build_init: I,
    build_track_inits: T,
    segs: Seq<Seq<u8>>,
    a: Seq<CborEvent>,
    b: Seq<CborEvent>,
    ended: bool,
)
    requires
        decodes_alike(decode),
        inits_alike(build_init),
        track_inits_alike(build_track_inits),
        streamed(decode, build_init, build_track_inits, segs, a, ended),
        streamed(decode, build_init, build_track_inits, segs, b, ended),
    ensures
        cbor_views(a) == cbor_views(b),
{
    let p = choose|parts: Seq<Part>| #[trigger]
        read_parts(decode, segs, parts) && parts.len() == segs.len() && realized(
            build_init,
            build_track_inits,
            if ended {
                all_events(parts)
            } else {
                events_so_far(parts)
            },
            a,
        );
    let q = choose|parts: Seq<Part>| #[trigger]
        read_parts(decode, segs, parts) && parts.len() == segs.len() && realized(
            build_init,
            build_track_inits,
            if ended {
                all_events(parts)
            } else {
                events_so_far(parts)
            },
            b,
        );
    lemma_same_parts(decode, segs, p, q);
    lemma_same_states(p, q);
    let ps = if ended {
        all_events(p)
    } else {
        events_so_far(p)
    };
    assert forall|i: int| 0 <= i < a.len() implies cbor_views(a)[i] == cbor_views(b)[i] by {
        assert(realizes(build_init, build_track_inits, ps[i], a[i]));
        lemma_same_event(build_init, build_track_inits, ps[i], a[i], b[i]);
    }
    assert(cbor_views(a) =~= cbor_views(b));
}

proof fn lemma_events_grow(parts: Seq<Part>, n: int)
    requires
        0 <= n <= parts.len(),
    ensures
        events_so_far(parts.take(n)).len() <= events_so_far(parts).len(),
        events_so_far(parts.take(n)) == events_so_far(parts).take(
            events_so_far(parts.take(n)).len() as int,
        ),
    decreases parts.len() - n,
{
    let short = events_so_far(parts.take(n));
    if n == parts.len() {
        assert(parts.take(n) =~= parts);
        assert(short.take(short.len() as int) =~= short);
    } else {
        lemma_events_grow(parts, n + 1);
        let long = events_so_far(parts.take(n + 1));
        assert(parts.take(n + 1).drop_last() =~= parts.take(n));
        assert(short =~= long.take(short.len() as int));
        assert(events_so_far(parts).take(long.len() as int).take(short.len() as int)
            =~= events_so_far(parts).take(short.len() as int));
    }
}

/// What is due when the GOP gathered after the first `n` segments ends, is sent.
proof fn lemma_close_is_sent(segs: Seq<Seq<u8>>, parts: Seq<Part>, n: int)
    requires
        0 <= n <= parts.len(),
        parts.len() == segs.len(),
        closes_after(segs, parts.take(n)),
        forall|i: int|
            0 <= i < parts.len() ==> indexed(segs[i]) == Ok::<IndexView, Seq<char>>(
                (#[trigger] parts[i]).index,
            ),
    ensures
        all_events(parts.take(n)).len() <= all_events(parts).len(),
        all_events(parts.take(n)) == all_events(parts).take(
            all_events(parts.take(n)).len() as int,
        ),
{
    let cut_here = all_events(parts.take(n));
    if n == parts.len() {
        assert(parts.take(n) =~= parts);
        assert(cut_here.take(cut_here.len() as int) =~= cut_here);
    } else {
        assert(parts.take(n).len() == n);
        assert(indexed(segs[n]) == Ok::<IndexView, Seq<char>>(parts[n].index));
        lemma_events_grow(parts, n + 1);
        assert(parts.take(n + 1).drop_last() =~= parts.take(n));
        assert(parts.take(n + 1).last() == parts[n]);
        assert(events_so_far(parts.take(n + 1)) == cut_here);
        let so_far = events_so_far(parts);
        assert(all_events(parts).take(cut_here.len() as int) =~= so_far.take(
            cut_here.len() as int,
        ));
    }
}

/// A catalog whose init segment was built once is not refused.
proof fn lemma_not_refused<
    I: Fn(&Catalog) -> Result<Vec<u8>, Error>,
    T: Fn(&Catalog) -> Result<BTreeMap<u32, Vec<u8>>, Error>,
>(build_init: I, build_track_inits: T, c: CatalogView, ev: CborEvent, e: Error)
    requires
        inits_alike(build_init),
        track_inits_alike(build_track_inits),
        realizes(build_init, build_track_inits, PlannedView::Init(c), ev),
    ensures
        !refuses(build_init, build_track_inits, c, e),
{
    let (cat, inits, data) = choose|
        cat: Catalog,
        inits: BTreeMap<u32, Vec<u8>>,
        data: Vec<u8>,
    |
        {
            &&& cat@ == c
            &&& #[trigger] call_ensures(
                build_track_inits,
                (&cat,),
                Ok::<BTreeMap<u32, Vec<u8>>, Error>(inits),
            )
            &&& #[trigger] call_ensures(build_init, (&cat,), Ok::<Vec<u8>, Error>(data))
            &&& ev@ == init_event(c, data@, Ok::<BTreeMap<u32, Vec<u8>>, Error>(inits))
        };
    assert(cat@ == c);
    assert(call_ensures(build_track_inits, (&cat,), Ok::<BTreeMap<u32, Vec<u8>>, Error>(inits)));
    assert(call_ensures(build_init, (&cat,), Ok::<Vec<u8>, Error>(data)));
}

/// Segments whose events were all sent once do not stop the next time.
pub proof fn law_success_repeats<
    D: Fn(&[u8]) -> Result<Catalog, Error>,
    I: Fn(&Catalog) -> Result<Vec<u8>, Error>,
    T: Fn(&Catalog) -> Result<BTreeMap<u32, Vec<u8>>, Error>,
>(
    decode: D,
    build_init: I,
    build_track_inits: T,
    segs: Seq<Seq<u8>>,
    evs: Seq<CborEvent>,
    before: Seq<CborEvent>,
    e: Error,
)
    requires
        decodes_alike(decode),
        inits_alike(build_init),
        track_inits_alike(build_track_inits),
        streamed(decode, build_init, build_track_inits, segs, evs, true),
    ensures
        !stopped(decode, build_init, build_track_inits, segs, before, e),
{
    if stopped(decode, build_init, build_track_inits, segs, before, e) {
        let q = choose|parts: Seq<Part>| #[trigger]
            read_parts(decode, segs, parts) && parts.len() == segs.len() && realized(
                build_init,
                build_track_inits,
                all_events(parts),
                evs,
            );
        let (p, ps) = choose|parts: Seq<Part>, ps: Seq<PlannedView>|
            {
                &&& #[trigger] read_parts(decode, segs, parts)
                &&& #[trigger] realized(build_init, build_track_inits, ps, before)
                &&& {
                    ||| parts.len() < segs.len() && unreadable(
                        decode,
                        parts,
                        segs[parts.len() as int],
                        ps,
                        e,
                    )
                    ||| {
                        &&& closes_after(segs, parts)
                        &&& ps.len() < all_events(parts).len()
                        &&& ps == all_events(parts).take(ps.len() as int)
                        &&& all_events(parts)[ps.len() as int] matches PlannedView::Init(c)
                            && refuses(build_init, build_track_inits, c, e)
                    }
                }
            };
        let n = p.len() as int;
        let short = q.take(n);
        assert forall|i: int| 0 <= i < short.len() implies is_read(
            decode,
            segs[i],
            #[trigger] short[i],
        ) by {
            assert(is_read(decode, segs[i], q[i]));
        }
        lemma_same_parts(decode, segs, p, short);
        lemma_same_states(p, short);
        if n < segs.len() && unreadable(decode, p, segs[n], ps, e) {
            assert(is_read(decode, segs[n], q[n]));
            let d = choose|d: &[u8]|
                d@ == segs[n] && #[trigger] call_ensures(
                    decode,
                    (d,),
                    Ok::<Catalog, Error>(q[n].catalog),
                );
            assert(d@ == segs[n]);
        } else {
            assert forall|i: int| 0 <= i < q.len() implies indexed(segs[i]) == Ok::<
                IndexView,
                Seq<char>,
            >((#[trigger] q[i]).index) by {
                assert(is_read(decode, segs[i], q[i]));
            }
            assert(closes_after(segs, short));
            lemma_close_is_sent(segs, q, n);
            let i = ps.len() as int;
            assert(all_events(short)[i] == all_events(q)[i]);
            assert(realizes(build_init, build_track_inits, all_events(q)[i], evs[i]));
            if let PlannedView::Init(c) = all_events(q)[i] {
                lemma_not_refused(build_init, build_track_inits, c, evs[i], e);
            }
        }
    }
}

/// A wrapper that gives its events when it is read whole gives the same events when it
/// is read as it arrives.
pub proof fn law_streamed_is_slurped<
    D: Fn(&[u8]) -> Result<Catalog, Error>,
    I: Fn(&Catalog) -> Result<Vec<u8>, Error>,
    T: Fn(&Catalog) -> Result<BTreeMap<u32, Vec<u8>>, Error>,
>(
    decode: D,
    build_init: I,
    build_track_inits: T,
    s: Seq<u8>,
    slurped: Seq<CborEvent>,
    arrived: Seq<CborEvent>,
    r: Result<(), Error>,
)
    requires
        decodes_alike(decode),
        inits_alike(build_init),
        track_inits_alike(build_track_inits),
        s.len() <= u64::MAX,
        plain_framing(s, 0),
        splits(s),
        tiled(bytes_of(s, locate(s, 0)->Ok_0), 0, locate(s, 0)->Ok_0.end == s.len()),
        streamed(decode, build_init, build_track_inits, wrapped_segments(s), slurped, true),
        arrives(decode, build_init, build_track_inits, s, arrived, r),
    ensures
        r is Ok,
        cbor_views(slurped) == cbor_views(arrived),
{
    law_scan_matches_split(s);
    let t = bytes_of(s, locate(s, 0)->Ok_0);
    assert(wrapped_segments(s) =~= cut(t, split(t).segments));
    if let Err(e) = r {
        law_success_repeats(
            decode,
            build_init,
            build_track_inits,
            scan(s).out,
            slurped,
            arrived,
            e,
        );
    }
    law_events_are_determined(
        decode,
        build_init,
        build_track_inits,
        scan(s).out,
        slurped,
        arrived,
        true,
    );
}

/// Events that are handed to a callback which refuses none are all handed over, and the
/// result is that of their source.
pub proof fn law_no_event_is_held_back<E: Fn(CborEvent) -> Result<(), Error>>(
    emit: E,
    evs: Seq<CborEvent>,
    s: Result<(), Error>,
    r: Result<(), Error>,
)
    requires
        forall|e: CborEvent, answer: Result<(), Error>| #[trigger]
            call_ensures(emit, (e,), answer) ==> answer is Ok,
        handed(emit, evs, s, r),
    ensures
        accepted(emit, evs, evs.len() as int),
        r == s,
{
    let n = choose|n: int| #[trigger]
        accepted(emit, evs, n) && if n == evs.len() {
            r == s
        } else {
            r matches Err(e) && call_ensures(emit, (evs[n],), Err::<(), Error>(e))
        };
    assert(n == evs.len());
}

/// The metafiles of a stream of segments are those of the segments one by one.
pub proof fn law_metafiles_are_those_of_the_segments<D: Fn(&[u8]) -> Result<Catalog, Error>>(
    decode: D,
    segs: Seq<Seq<u8>>,
    ms: Seq<MetafileSegment>,
    i: int,
    m: MetafileSegment,
)
    requires
        decodes_alike(decode),
        are_metafiles(decode, segs, ms),
        0 <= i < ms.len(),
        is_metafile(decode, segs[i], m@),
    ensures
        ms[i]@ == m@,
{
    assert(is_metafile(decode, segs[i], ms[i]@));
}

/// An event that is handed over gives the event of the protocol that it gives when it is
/// lent.
pub proof fn law_owned_event_is_the_lent_one<
    T: Fn(&Catalog) -> Result<BTreeMap<u32, Vec<u8>>, Error>,
>(build_track_inits: T, event: SegmenterEvent, owned: CborEvent, lent: CborEvent)
    requires
        track_inits_alike(build_track_inits),
        tells(event, build_track_inits, owned@),
        tells(event, build_track_inits, lent@),
    ensures
        owned@ == lent@,
{
    if let SegmenterEvent::InitSegment { catalog, data } = event {
        let x = choose|inits: Result<BTreeMap<u32, Vec<u8>>, Error>| #[trigger]
            call_ensures(build_track_inits, (&catalog,), inits) && owned@ == init_event(
                catalog@,
                data@,
                inits,
            );
        let y = choose|inits: Result<BTreeMap<u32, Vec<u8>>, Error>| #[trigger]
            call_ensures(build_track_inits, (&catalog,), inits) && lent@ == init_event(
                catalog@,
                data@,
                inits,
            );
        if let (Ok(p), Ok(q)) = (x, y) {
            assert(inits_bytes(p) == inits_bytes(q));
        }
    }
}

/// The catalog of the last init segment among `ps`.
pub open spec fn last_init(ps: Seq<PlannedView>) -> Option<CatalogView>
    decreases ps.len(),
{
    if ps.len() == 0 {
        None
    } else {
        match ps.last() {
            PlannedView::Init(c) => Some(c),
            PlannedView::Gop(_) => last_init(ps.drop_last()),
        }
    }
}

proof fn lemma_last_init_joined(a: Seq<PlannedView>, b: Seq<PlannedView>)
    ensures
        last_init(a + b) == match last_init(b) {
            Some(c) => Some(c),
            None => last_init(a),
        },
    decreases b.len(),
{
    if b.len() == 0 {
        assert(a + b =~= a);
    } else {
        lemma_last_init_joined(a, b.drop_last());
        assert((a + b).drop_last() =~= a + b.drop_last());
    }
}

/// Whether the gathered GOP has a track that the last init segment lacks.
pub open spec fn lacks_a_track(st: EventState) -> bool {
    st.open matches Some(g) && exists|t: u32|
        #[trigger] g.ticks.contains_key(t) && !st.covered.contains(t)
}

proof fn lemma_closing_init(st: EventState)
    ensures
        last_init(closing_events(st)) == if st.open is Some && (!st.init_sent || st.new_track) {
            Some(st.running)
        } else {
            None
        },
{
    reveal_with_fuel(last_init, 3);
    if let Some(g) = st.open {
        let ps = closing_events(st);
        if ps.len() == 2 {
            assert(ps.drop_last() =~= seq![PlannedView::Init(st.running)]);
        } else {
            assert(ps.drop_last() =~= seq![]);
        }
    }
}

proof fn lemma_covered(parts: Seq<Part>)
    ensures
        ({
            let st = state_after(parts);
            let sent = last_init(events_so_far(parts));
            &&& st.init_sent == (sent is Some)
            &&& sent matches Some(c) ==> st.covered == catalog_ids(c)
            &&& st.new_track == lacks_a_track(st)
            &&& parts.len() > 0 ==> st.open is Some
        }),
    decreases parts.len(),
{
    if parts.len() > 0 {
        let before = parts.drop_last();
        let p = parts.last();
        lemma_covered(before);
        let st = state_after(before);
        lemma_last_init_joined(events_so_far(before), next_events(st, p));
        lemma_closing_init(st);
        let base = if begins_gop(st, p.index.track_id) {
            closed(st)
        } else {
            st
        };
        let next = state_after(parts);
        let g = next.open->Some_0;
        assert(g.ticks.contains_key(p.index.track_id));
        assert(!base.new_track || base.open is Some);
        if let Some(old_gop) = base.open {
            assert forall|t: u32| #[trigger] g.ticks.contains_key(t) implies old_gop.ticks.contains_key(
                t,
            ) || t == p.index.track_id by {
            }
            if lacks_a_track(base) {
                let t = choose|t: u32|
                    #[trigger] old_gop.ticks.contains_key(t) && !base.covered.contains(t);
                assert(g.ticks.contains_key(t));
            }
            if lacks_a_track(next) {
                let t = choose|t: u32|
                    #[trigger] g.ticks.contains_key(t) && !next.covered.contains(t);
                assert(old_gop.ticks.contains_key(t) || t == p.index.track_id);
            }
        } else {
            assert forall|t: u32| #[trigger] g.ticks.contains_key(t) implies t == p.index.track_id by {
            }
        }
    }
}

/// An init segment comes before a GOP exactly where none came before it or where the
/// GOP has a track that the last one does not describe.
pub proof fn law_init_comes_with_a_new_track(parts: Seq<Part>)
    requires
        parts.len() > 0,
    ensures
        ({
            let st = state_after(parts);
            let due = closing_events(st);
            &&& due.len() > 0
            &&& due[0] is Init <==> match last_init(events_so_far(parts)) {
                None => true,
                Some(c) => st.open matches Some(g) && exists|t: u32|
                    #[trigger] g.ticks.contains_key(t) && !catalog_ids(c).contains(t),
            }
        }),
{
    lemma_covered(parts);
}

/// The GOPs among `ps`, in order.
pub open spec fn gops_of(ps: Seq<PlannedView>) -> Seq<GopEvent>
    decreases ps.len(),
{
    if ps.len() == 0 {
        seq![]
    } else {
        match ps.last() {
            PlannedView::Gop(g) => gops_of(ps.drop_last()).push(g),
            PlannedView::Init(_) => gops_of(ps.drop_last()),
        }
    }
}

pub(crate) proof fn lemma_gops_joined(a: Seq<PlannedView>, b: Seq<PlannedView>)
    ensures
        gops_of(a + b) == gops_of(a) + gops_of(b),
    decreases b.len(),
{
    if b.len() == 0 {
        assert(a + b =~= a);
        assert(gops_of(a) + gops_of(b) =~= gops_of(a));
    } else {
        lemma_gops_joined(a, b.drop_last());
        assert((a + b).drop_last() =~= a + b.drop_last());
        assert(gops_of(a + b) =~= gops_of(a) + gops_of(b));
    }
}

pub(crate) proof fn lemma_closing_gop(st: EventState)
    ensures
        gops_of(closing_events(st)) == match st.open {
            Some(g) => seq![g.event],
            None => seq![],
        },
{
    reveal_with_fuel(gops_of, 3);
    if let Some(g) = st.open {
        let ps = closing_events(st);
        if ps.len() == 2 {
            assert(ps.drop_last() =~= seq![PlannedView::Init(st.running)]);
        } else {
            assert(ps.drop_last() =~= seq![]);
        }
        assert(gops_of(ps) =~= seq![g.event]);
    }
}

/// Which of the GOPs of a stream the segment `i` is in: the one gathered when it comes.
pub open spec fn place_of(parts: Seq<Part>, i: int) -> nat {
    gops_of(events_so_far(parts.take(i + 1))).len()
}

proof fn lemma_placed(parts: Seq<Part>, i: int)
    requires
        0 <= i < parts.len(),
    ensures
        ({
            let gs = gops_of(events_so_far(parts));
            let st = state_after(parts);
            ||| place_of(parts, i) < gs.len() && holds(gs[place_of(parts, i) as int], parts[i])
            ||| {
                &&& place_of(parts, i) == gs.len()
                &&& st.open matches Some(g) && holds(g.event, parts[i])
                &&& st.last matches Some(t) && parts[i].index.track_id <= t
            }
        }),
    decreases parts.len(),
{
    let n = parts.len() - 1;
    if i == n {
        assert(parts.take(i + 1) =~= parts);
    } else {
        let before = parts.drop_last();
        let p = parts.last();
        let st = state_after(before);
        lemma_placed(before, i);
        assert(before.take(i + 1) =~= parts.take(i + 1));
        assert(before[i] == parts[i]);
        lemma_gops_joined(events_so_far(before), next_events(st, p));
        lemma_closing_gop(st);
        if !begins_gop(st, p.index.track_id) {
            assert(gops_of(next_events(st, p)) =~= seq![]);
            let a = p.index.track_id;
            let b = parts[i].index.track_id;
            if decimal(a as nat) == decimal(b as nat) {
                law_decimal_injective(a, b);
            }
        }
    }
}

proof fn lemma_places_ascend(parts: Seq<Part>, i: int, j: int)
    requires
        0 <= i <= j < parts.len(),
    ensures
        place_of(parts, i) <= place_of(parts, j),
    decreases j - i,
{
    if i < j {
        lemma_places_ascend(parts, i, j - 1);
        let long = parts.take(j + 1);
        let short = parts.take(j);
        assert(long.drop_last() =~= short);
        lemma_gops_joined(events_so_far(short), next_events(state_after(short), long.last()));
    }
}

/// The segments of a stream are in its GOPs in their order: each is held verbatim by
/// the GOP in its place, and the places ascend.
pub proof fn law_segments_keep_their_order(parts: Seq<Part>, i: int, j: int)
    requires
        0 <= i <= j < parts.len(),
    ensures
        ({
            let gs = gops_of(all_events(parts));
            &&& place_of(parts, i) <= place_of(parts, j) < gs.len()
            &&& holds(gs[place_of(parts, i) as int], parts[i])
            &&& holds(gs[place_of(parts, j) as int], parts[j])
        }),
{
    lemma_placed(parts, i);
    lemma_placed(parts, j);
    lemma_places_ascend(parts, i, j);
    lemma_gops_joined(events_so_far(parts), closing_events(state_after(parts)));
    lemma_closing_gop(state_after(parts));
}

/// How many bytes the segments of a stream have.
pub open spec fn parts_bytes(parts: Seq<Part>) -> int
    decreases parts.len(),
{
    if parts.len() == 0 {
        0
    } else {
        parts_bytes(parts.drop_last()) + parts.last().data.len()
    }
}

/// The sum of the body sizes of `gs`.
pub open spec fn body_bytes(gs: Seq<GopEvent>) -> int
    decreases gs.len(),
{
    if gs.len() == 0 {
        0
    } else {
        body_bytes(gs.drop_last()) + gs.last().body_size
    }
}

proof fn lemma_bodies(parts: Seq<Part>)
    requires
        parts_bytes(parts) <= u64::MAX,
    ensures
        ({
            let open: int = match state_after(parts).open {
                Some(g) => g.event.body_size as int,
                None => 0,
            };
            &&& body_bytes(gops_of(events_so_far(parts))) + open == parts_bytes(parts)
            &&& body_bytes(gops_of(events_so_far(parts))) >= 0
        }),
    decreases parts.len(),
{
    if parts.len() > 0 {
        let before = parts.drop_last();
        let p = parts.last();
        let st = state_after(before);
        lemma_bodies(before);
        lemma_gops_joined(events_so_far(before), next_events(st, p));
        lemma_closing_gop(st);
        let gs = gops_of(events_so_far(before));
        if begins_gop(st, p.index.track_id) {
            if let Some(g) = st.open {
                assert(gs + seq![g.event] =~= gs.push(g.event));
                assert(gs.push(g.event).drop_last() =~= gs);
            } else {
                assert(gs + Seq::<GopEvent>::empty() =~= gs);
            }
        } else {
            assert(gops_of(next_events(st, p)) =~= seq![]);
            assert(gs + Seq::<GopEvent>::empty() =~= gs);
        }
    }
}

/// The body sizes of the GOPs of a stream add up to the bytes of its segments.
pub proof fn law_bodies_add_up(parts: Seq<Part>)
    requires
        parts_bytes(parts) <= u64::MAX,
    ensures
        body_bytes(gops_of(all_events(parts))) == parts_bytes(parts),
{
    lemma_bodies(parts);
    let st = state_after(parts);
    lemma_gops_joined(events_so_far(parts), closing_events(st));
    lemma_closing_gop(st);
    let gs = gops_of(events_so_far(parts));
    if let Some(g) = st.open {
        assert(gs + seq![g.event] =~= gs.push(g.event));
        assert(gs.push(g.event).drop_last() =~= gs);
    } else {
        assert(gs + Seq::<GopEvent>::empty() =~= gs);
    }
}

} // verus!
