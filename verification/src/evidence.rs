//! What is said of signatures, and of certificates.

use vstd::prelude::*;

use crate::asset::{reports_manifest, signer_name, ManifestFacts, Validation};
use crate::cbor::{law_by_text_lookup, SignedEventView};
use crate::cert::{
    dn_text, extensions_for, name_der, pem_text, planned_tbs, serial_of, spki_der, validity_der,
    with_lines, Points, OID_AUTHORITY_KEY_ID, OID_EC_PUBLIC_KEY, OID_SECP256K1,
    OID_SUBJECT_KEY_ID, VALIDITY_SECS,
};
use crate::encode::base64;
use crate::inspect::{text_opt, SigningReport, SigningState};
use crate::json::{member, JsonView};
use crate::segment::GopView;
use crate::sign::signed_event;
use crate::text::{char_from, decimal, lemma_char_from, starts, trimmed};
use crate::verify::{
    all_names, common_name, common_name_from, credited, leaf_key_text, metadata_at, names_in,
    names_of, text_member, Assertion,
};

verus! {

/// What is reported of a manifest is what it has: its title, the algorithm, the time and the
/// signer of its signature, its credits, its actions, and its ingredients in order. Failure
/// codes are reported of an invalid asset alone.
pub proof fn law_report_is_the_manifest(
    v: Validation,
    codes: Seq<String>,
    m: ManifestFacts,
    r: SigningReport,
    i: int,
)
    requires
        reports_manifest(v, codes, m, r),
    ensures
        (r.state == SigningState::Trusted) == (v == Validation::Trusted),
        (r.state == SigningState::Valid) == (v == Validation::Valid),
        (r.state == SigningState::Invalid) == (v == Validation::Invalid),
        v == Validation::Invalid ==> r.failure_codes@ == codes,
        v != Validation::Invalid ==> r.failure_codes@.len() == 0,
        r.title == m.title,
        m.signature matches Some(s) ==> {
            &&& r.alg == s.alg
            &&& r.when == s.time
            &&& text_opt(r.signer) == signer_name(s.cert_chain@)
            &&& text_opt(r.pubkey) == leaf_key_text(s.cert_chain@)
        },
        m.signature is None ==> r.alg is None && r.when is None && r.signer is None && r.pubkey
            is None,
        r.ingredients@.len() == m.ingredients@.len(),
        0 <= i < m.ingredients@.len() ==> {
            &&& r.ingredients@[i].relationship == m.ingredients@[i].relationship
            &&& m.ingredients@[i].title matches Some(t) ==> r.ingredients@[i].title@ == t@
            &&& m.ingredients@[i].hash matches Some(h) ==> (h@ != ""@ ==> text_opt(
                r.ingredients@[i].hash,
            ) == Some(h@))
        },
{
}

/// Whether the assertion `a` lists the action `name`.
pub open spec fn lists_action(a: Assertion, name: Seq<char>) -> bool {
    &&& a.label@ == "c2pa.actions"@ || a.label@ == "c2pa.actions.v2"@
    &&& a.value matches Some(j) && member(j@, "actions"@) matches Some(JsonView::List(actions))
        && exists|k: int|
        0 <= k < actions.len() && member(#[trigger] actions[k], "action"@) == Some(
            JsonView::Text(name),
        )
}

proof fn lemma_names_in(actions: Seq<JsonView>, n: int, name: Seq<char>)
    requires
        0 <= n <= actions.len(),
    ensures
        names_in(actions, n).contains(name) == exists|k: int|
            0 <= k < n && member(#[trigger] actions[k], "action"@) == Some(JsonView::Text(name)),
    decreases n,
{
    if n > 0 {
        lemma_names_in(actions, n - 1, name);
        let before = names_in(actions, n - 1);
        if let Some(x) = text_member(actions[n - 1], "action"@) {
            lemma_pushed(before, x, name);
        }
        if exists|k: int|
            0 <= k < n - 1 && member(#[trigger] actions[k], "action"@) == Some(
                JsonView::Text(name),
            ) {
            let k = choose|k: int|
                0 <= k < n - 1 && member(#[trigger] actions[k], "action"@) == Some(
                    JsonView::Text(name),
                );
            assert(0 <= k < n && member(actions[k], "action"@) == Some(JsonView::Text(name)));
        }
        if member(actions[n - 1], "action"@) == Some(JsonView::Text(name)) {
            assert(text_member(actions[n - 1], "action"@) == Some(name));
        }
    }
}

proof fn lemma_pushed(s: Seq<Seq<char>>, x: Seq<char>, name: Seq<char>)
    ensures
        s.push(x).contains(name) == (s.contains(name) || x == name),
{
    let t = s.push(x);
    if s.contains(name) {
        assert(t[s.index_of(name)] == name);
    }
    if x == name {
        assert(t[s.len() as int] == name);
    }
    if t.contains(name) && x != name {
        assert(s[t.index_of(name)] == name);
    }
}

proof fn lemma_joined(a: Seq<Seq<char>>, b: Seq<Seq<char>>, name: Seq<char>)
    ensures
        (a + b).contains(name) == (a.contains(name) || b.contains(name)),
{
    let t = a + b;
    if a.contains(name) {
        assert(t[a.index_of(name)] == name);
    }
    if b.contains(name) {
        assert(t[a.len() + b.index_of(name)] == name);
    }
    if t.contains(name) {
        let i = t.index_of(name);
        if i < a.len() {
            assert(a[i] == name);
        } else {
            assert(b[i - a.len()] == name);
        }
    }
}

proof fn lemma_all_names(assertions: Seq<Assertion>, n: int, name: Seq<char>)
    requires
        0 <= n <= assertions.len(),
    ensures
        all_names(assertions, n).contains(name) == exists|i: int|
            0 <= i < n && lists_action(#[trigger] assertions[i], name),
    decreases n,
{
    if n > 0 {
        lemma_all_names(assertions, n - 1, name);
        let a = assertions[n - 1];
        lemma_joined(all_names(assertions, n - 1), names_of(a), name);
        assert(names_of(a).contains(name) == lists_action(a, name)) by {
            if let Some(j) = a.value {
                if let Some(JsonView::List(actions)) = member(j@, "actions"@) {
                    lemma_names_in(actions, actions.len() as int, name);
                }
            }
        }
        if exists|i: int| 0 <= i < n - 1 && lists_action(#[trigger] assertions[i], name) {
            let i = choose|i: int| 0 <= i < n - 1 && lists_action(#[trigger] assertions[i], name);
            assert(0 <= i < n && lists_action(assertions[i], name));
        }
    }
}

/// The actions of a manifest are those that its assertions on actions list, and no others.
pub proof fn law_actions_are_those_listed(assertions: Seq<Assertion>, name: Seq<char>)
    ensures
        all_names(assertions, assertions.len() as int).contains(name) == exists|i: int|
            0 <= i < assertions.len() && lists_action(#[trigger] assertions[i], name),
{
    lemma_all_names(assertions, assertions.len() as int, name);
}

/// The actions of the assertions `a` come before those of the assertions behind them.
pub proof fn law_actions_keep_their_order(a: Seq<Assertion>, b: Seq<Assertion>, n: int)
    requires
        0 <= n <= b.len(),
    ensures
        all_names(a + b, a.len() + n) == all_names(a, a.len() as int) + all_names(b, n),
    decreases n,
{
    let left = all_names(a, a.len() as int);
    if n > 0 {
        law_actions_keep_their_order(a, b, n - 1);
        assert((a + b)[a.len() + n - 1] == b[n - 1]);
        assert(left + all_names(b, n - 1) + names_of(b[n - 1]) =~= left + (all_names(b, n - 1)
            + names_of(b[n - 1])));
    } else {
        lemma_names_alike(a, a + b, a.len() as int);
        assert(left + Seq::<Seq<char>>::empty() =~= left);
    }
}

proof fn lemma_names_alike(a: Seq<Assertion>, b: Seq<Assertion>, n: int)
    requires
        0 <= n <= a.len() <= b.len(),
        forall|i: int| 0 <= i < n ==> a[i] == #[trigger] b[i],
    ensures
        all_names(a, n) == all_names(b, n),
    decreases n,
{
    if n > 0 {
        lemma_names_alike(a, b, n - 1);
        assert(a[n - 1] == b[n - 1]);
    }
}

/// The credits of a manifest are the creator and the date in its first assertion on
/// metadata. A manifest without one has none.
pub proof fn law_credits_are_the_first(assertions: Seq<Assertion>, i: int)
    ensures
        0 <= i < assertions.len() && assertions[i].label@ == "cawg.metadata"@ && (forall|k: int|
            0 <= k < i ==> (#[trigger] assertions[k]).label@ != "cawg.metadata"@) ==> (
        match assertions[i].value {
            Some(j) => {
                &&& credited(assertions).0 == (match member(j@, "dc:creator"@) {
                    Some(JsonView::Text(t)) => Some(t),
                    _ => None,
                })
                &&& credited(assertions).1 == (match member(j@, "dc:date"@) {
                    Some(JsonView::Text(t)) => Some(t),
                    _ => None,
                })
            },
            None => credited(assertions).0 is None && credited(assertions).1 is None,
        }),
        (forall|k: int|
            0 <= k < assertions.len() ==> (#[trigger] assertions[k]).label@ != "cawg.metadata"@)
            ==> credited(assertions).0 is None && credited(assertions).1 is None,
{
    lemma_metadata_at(assertions, 0);
}

proof fn lemma_metadata_at(assertions: Seq<Assertion>, i: int)
    requires
        0 <= i <= assertions.len(),
    ensures
        match metadata_at(assertions, i) {
            Some(k) => i <= k < assertions.len() && assertions[k].label@ == "cawg.metadata"@
                && forall|j: int|
                i <= j < k ==> (#[trigger] assertions[j]).label@ != "cawg.metadata"@,
            None => forall|j: int|
                i <= j < assertions.len() ==> (#[trigger] assertions[j]).label@
                    != "cawg.metadata"@,
        },
    decreases assertions.len() - i,
{
    if i < assertions.len() && assertions[i].label@ != "cawg.metadata"@ {
        lemma_metadata_at(assertions, i + 1);
    }
}

/// Whether a part of the subject reaches from `i` to `end`: it lies between two commas, or
/// between one and an end of the subject, and has none inside.
pub open spec fn is_part(subject: Seq<char>, i: int, end: int) -> bool {
    &&& 0 <= i <= end <= subject.len()
    &&& i == 0 || subject[i - 1] == ','
    &&& end == subject.len() || subject[end] == ','
    &&& forall|k: int| i <= k < end ==> #[trigger] subject[k] != ','
}

/// Whether the part from `i` to `end` is a common name.
pub open spec fn names_cn(subject: Seq<char>, i: int, end: int) -> bool {
    starts(trimmed(subject.subrange(i, end)), "CN="@)
}

/// The common name of a subject is what follows "CN=" in the first part that begins so,
/// white space around the part aside.
pub proof fn law_common_name_is_the_first(subject: Seq<char>, i: int, end: int)
    requires
        is_part(subject, i, end),
        names_cn(subject, i, end),
        forall|a: int, b: int|
            #[trigger] is_part(subject, a, b) && a < i ==> !names_cn(subject, a, b),
    ensures
        "CN="@ + common_name(subject) == trimmed(subject.subrange(i, end)),
{
    lemma_common_name(subject, 0, i, end);
    let part = trimmed(subject.subrange(i, end));
    assert("CN="@ + part.skip("CN="@.len() as int) =~= part) by {
        assert(part.take("CN="@.len() as int) == "CN="@);
    }
}

proof fn lemma_common_name(subject: Seq<char>, a: int, i: int, end: int)
    requires
        0 <= a <= i,
        a == 0 || subject[a - 1] == ',',
        is_part(subject, i, end),
        names_cn(subject, i, end),
        forall|x: int, y: int|
            #[trigger] is_part(subject, x, y) && x < i ==> !names_cn(subject, x, y),
    ensures
        common_name_from(subject, a) == Some(
            trimmed(subject.subrange(i, end)).skip("CN="@.len() as int),
        ),
    decreases i - a,
{
    lemma_char_from(subject, ',', a);
    lemma_first_char(subject, ',', a);
    let b = match char_from(subject, ',', a) {
        Some(k) => k,
        None => subject.len() as int,
    };
    assert(is_part(subject, a, b));
    if a < i {
        assert(!names_cn(subject, a, b));
        assert(b < i) by {
            if b >= i {
                assert(subject[i - 1] != ',');
            }
        }
        lemma_common_name(subject, b + 1, i, end);
    } else {
        if b < end {
            assert(subject[b] == ',');
        }
        if end < b {
            assert(subject[end] == ',');
        }
        assert(b == end);
    }
}

proof fn lemma_first_char(s: Seq<char>, c: char, i: int)
    requires
        0 <= i <= s.len(),
    ensures
        match char_from(s, c, i) {
            Some(k) => i <= k < s.len() && s[k] == c && forall|j: int|
                i <= j < k ==> #[trigger] s[j] != c,
            None => forall|j: int| i <= j < s.len() ==> #[trigger] s[j] != c,
        },
    decreases s.len() - i,
{
    if i < s.len() && s[i] != c {
        lemma_first_char(s, c, i + 1);
    }
}

/// The event of a signed GOP has its number, and under the decimal id of each track what the
/// GOP has of it. It has no decode times.
pub proof fn law_signed_event_is_the_gop(g: GopView, t: u32)
    ensures
        ({
            let key = decimal(t as nat);
            &&& signed_event(g) matches SignedEventView::SignedSegment {
                number,
                tracks,
                durations,
                sample_counts,
                samples,
                first_decode_times,
                body_size,
                duration_us,
            } && {
                &&& number == g.number
                &&& tracks.contains_key(key) == g.tracks.contains_key(t)
                &&& g.tracks.contains_key(t) ==> tracks[key] == g.tracks[t]
                &&& durations.contains_key(key) == g.durations.contains_key(t)
                &&& g.durations.contains_key(t) ==> durations[key] == g.durations[t]
                &&& sample_counts.contains_key(key) == g.sample_counts.contains_key(t)
                &&& g.sample_counts.contains_key(t) ==> sample_counts[key] == g.sample_counts[t]
                &&& samples.contains_key(key) == g.samples.contains_key(t)
                &&& g.samples.contains_key(t) ==> samples[key] == g.samples[t]
                &&& !first_decode_times.contains_key(key)
                &&& body_size == g.body_size
                &&& duration_us == g.duration_us
            }
        }),
{
    law_by_text_lookup(g.tracks, t);
    law_by_text_lookup(g.durations, t);
    law_by_text_lookup(g.sample_counts, t);
    law_by_text_lookup(g.samples, t);
}

/// A serial number is positive, as its first bit says, and not 0. It keeps what was drawn,
/// up to the first byte: that one keeps its other bits where any is set.
pub proof fn law_serial_is_positive(random: Seq<u8>, i: int)
    requires
        random.len() > 0,
    ensures
        serial_of(random).len() == random.len(),
        1 <= serial_of(random)[0] < 128,
        random[0] != 0 && random[0] != 128 ==> (random[0] - serial_of(random)[0]) % 128 == 0,
        1 <= i < random.len() ==> serial_of(random)[i] == random[i],
{
}

/// A certificate names its subject as its issuer. It holds the key that it is made for, and
/// is valid from `now` on for the whole of the period.
pub proof fn law_certificate_is_self_issued(
    key: Points,
    did: Option<Seq<char>>,
    organization: Option<Seq<char>>,
    random: Seq<u8>,
    now: u64,
)
    requires
        planned_tbs(key, did, organization, random, now) is Ok,
        random.len() > 0,
    ensures
        ({
            let t = planned_tbs(key, did, organization, random, now)->Ok_0;
            &&& t.issuer == t.subject
            &&& did matches Some(d) ==> name_der(dn_text(d, organization)) == Ok::<
                Seq<u8>,
                Seq<char>,
            >(t.subject)
            &&& spki_der(OID_EC_PUBLIC_KEY@, OID_SECP256K1@, key.uncompressed) == Ok::<
                Seq<u8>,
                Seq<char>,
            >(t.key)
            &&& now + VALIDITY_SECS <= u64::MAX && validity_der(
                now,
                (now + VALIDITY_SECS) as u64,
            ) == Ok::<Seq<u8>, Seq<char>>(t.validity)
            &&& 1 <= t.serial[0] < 128
        }),
{
}

/// The extensions name one key as that of the subject and of the issuer: the octets of the
/// first end the second.
pub proof fn law_extensions_name_one_key(id: Seq<u8>, purpose: Seq<u8>) -> (r: (int, int))
    requires
        id.len() == 20,
    ensures
        ({
            let es = extensions_for(id, purpose);
            let (s, a) = r;
            &&& 0 <= s < es.len() && es[s].oid == OID_SUBJECT_KEY_ID@
            &&& 0 <= a < es.len() && es[a].oid == OID_AUTHORITY_KEY_ID@
            &&& es[s].value.skip(es[s].value.len() - 20) == id
            &&& es[a].value.skip(es[a].value.len() - 20) == id
            &&& es[s].value[1] == es[s].value.len() - 2
            &&& es[a].value[1] == es[a].value.len() - 2
            &&& es[a].value[3] == es[a].value.len() - 4
        }),
{
    let es = extensions_for(id, purpose);
    assert(es[3].value.skip(2) =~= id);
    assert(es[4].value.skip(4) =~= id);
    (3, 4)
}

/// How many lines of 64 characters `n` characters fill, the last perhaps in part.
pub open spec fn line_count(n: int) -> int {
    (n + 63) / 64
}

/// Whether `body` is `text` broken into lines: 64 characters to a line, but for the last,
/// and a line end behind each.
pub open spec fn is_broken(body: Seq<char>, text: Seq<char>) -> bool {
    &&& body.len() == text.len() + line_count(text.len() as int)
    &&& forall|j: int| 0 <= j < text.len() ==> body[j + j / 64] == #[trigger] text[j]
    &&& forall|l: int|
        0 <= l < text.len() / 64 ==> #[trigger] is_line_end(body, 65 * l + 64)
    &&& text.len() > 0 ==> is_line_end(body, body.len() - 1)
}

/// Whether a line ends at `k`.
pub open spec fn is_line_end(body: Seq<char>, k: int) -> bool {
    0 <= k < body.len() && body[k] == '\n'
}

proof fn lemma_broken(out: Seq<char>, text: Seq<char>, i: int)
    requires
        0 <= i <= text.len(),
    ensures
        ({
            let r = with_lines(out, text, i);
            &&& out.len() <= r.len() && r.take(out.len() as int) == out
            &&& is_broken(r.skip(out.len() as int), text.skip(i))
        }),
    decreases text.len() - i,
{
    let n = text.len() - i;
    let rest = text.skip(i);
    let r = with_lines(out, text, i);
    if n == 0 {
        assert(r.take(out.len() as int) =~= out);
        assert(r.skip(out.len() as int) =~= seq![]);
    } else {
        let end = if n < 64 {
            text.len() as int
        } else {
            i + 64
        };
        let w = end - i;
        let next = (out + text.subrange(i, end)).push('\n');
        lemma_broken(next, text, end);
        assert(r == with_lines(next, text, end));
        assert(r.take(out.len() as int) =~= next.take(out.len() as int));
        assert(next.take(out.len() as int) =~= out);
        let body = r.skip(out.len() as int);
        let tail = r.skip(next.len() as int);
        let more = text.skip(end);
        assert(next.len() == out.len() + w + 1);
        assert(more.len() == n - w);
        assert forall|k: int| 0 <= k < tail.len() implies body[w + 1 + k] == #[trigger] tail[k] by {}
        assert forall|k: int| 0 <= k < w + 1 implies #[trigger] body[k] == next[out.len() + k] by {
            assert(r.take(next.len() as int)[out.len() + k] == next[out.len() + k]);
        }
        assert forall|j: int| 0 <= j < rest.len() implies body[j + j / 64] == #[trigger] rest[j] by {
            if j < w {
                assert(j / 64 == 0);
                assert(body[j] == next[out.len() + j]);
            } else {
                let m = j - 64;
                assert(w == 64);
                assert(j / 64 == m / 64 + 1);
                assert(tail[m + m / 64] == more[m]);
                assert(body[w + 1 + (m + m / 64)] == tail[m + m / 64]);
            }
        }
        assert(body[w] == '\n');
        assert forall|l: int| 0 <= l < rest.len() / 64 implies #[trigger] is_line_end(
            body,
            65 * l + 64,
        ) by {
            assert(w == 64);
            if l > 0 {
                assert(is_line_end(tail, 65 * (l - 1) + 64));
                assert(body[w + 1 + (65 * (l - 1) + 64)] == tail[65 * (l - 1) + 64]);
            }
        }
        if more.len() > 0 {
            assert(is_line_end(tail, tail.len() - 1));
            assert(body[w + 1 + (tail.len() - 1)] == tail[tail.len() - 1]);
        } else {
            assert(tail.len() == 0);
        }
        assert(is_line_end(body, body.len() - 1));
    }
}

/// A PEM text is its first and its last line, and between them the bytes in base64, broken
/// into lines.
pub proof fn law_pem_is_broken_base64(label: Seq<char>, data: Seq<u8>) -> (r: (int, int))
    ensures
        ({
            let text = pem_text(label, data);
            let (from, to) = r;
            &&& 0 <= from <= to <= text.len()
            &&& text.take(from) == "-----BEGIN "@ + label + "-----\n"@
            &&& text.skip(to) == "-----END "@ + label + "-----\n"@
            &&& is_broken(text.subrange(from, to), base64(data))
        }),
{
    let begin = "-----BEGIN "@ + label + "-----\n"@;
    let b = base64(data);
    let lines = with_lines(begin, b, 0);
    let close = "-----END "@ + label + "-----\n"@;
    let text = pem_text(label, data);
    lemma_broken(begin, b, 0);
    assert(text =~= lines + close);
    let from = begin.len() as int;
    let to = lines.len() as int;
    assert(text.take(from) =~= lines.take(from));
    assert(text.skip(to) =~= close);
    assert(text.subrange(from, to) =~= lines.skip(from));
    assert(b.skip(0) =~= b);
    (from, to)
}

} // verus!
