//! Signing: what goes into a manifest, and what a signature does to a GOP.
//!
//! Every canonical segment is signed on its own, as an asset that verifies on
//! its own. The signature itself comes from the caller.

use std::collections::BTreeMap;

use vstd::prelude::*;
use vstd::utf8::{decode_utf8, valid_utf8};

use crate::catalog::Catalog;
use crate::cbor::{by_text, keyed_bytes, SegmenterEvent, SignedEvent, SignedEventView};
use crate::cert::{pkcs8_scalar, SecretKey};
use crate::concat::{moved, shift_offsets, EventView};
use crate::dates::{is_time_now, now_rfc3339_utc};
use crate::error::{invalid_mp4, Error, ErrorView};
use crate::json::{
    find_from, find_member, json_text, lemma_list_view, lemma_object_view, member, members_view,
    parsed_json, put, put_member, read_json, values_view, write_json, Json, JsonView, Member, MemberView,
};
use crate::keymap::{Duplicate, KeyMap};
use crate::segment::{gop_size, sat64, size_of_gop, GopSegment, GopView, SamplesView, TrackSamples};
use crate::text::{decimal, push_decimal, read_utf8, same_text};
use crate::tracks::{keys_of, lists, sorted};

verus! {

/// Names, in a manifest's actions, the segment that a transcoded one was made
/// of.
pub const TRANSCODE_INGREDIENT_LABEL: &'static str = "muxl.source";

/// Signature algorithms.
#[derive(Clone, Copy, Debug, PartialEq, Eq, Structural)]
pub enum SigningAlg {
    Es256,
    Es256K,
    Es384,
    Es512,
    Ps256,
    Ps384,
    Ps512,
    Ed25519,
}

/// Where signatures come from.
#[derive(Debug)]
pub enum SignBackend {
    /// A private key in PEM.
    Pem(Vec<u8>),
    /// The host that this runs in. The key stays outside.
    Host,
}

/// A certificate chain, and how to sign under it.
#[derive(Debug)]
pub struct SignerKey {
    /// The chain in PEM, the leaf first.
    pub cert_chain: Vec<u8>,
    pub alg: SigningAlg,
    /// Where time stamps come from, if they are wanted.
    pub tsa_url: Option<String>,
    pub backend: SignBackend,
}

/// How a [`SignerKey`] signs.
#[derive(Clone, Copy, Debug, PartialEq, Eq, Structural)]
pub enum SignPath {
    /// Through the host.
    Host,
    /// With a key of the curve secp256k1 in this process.
    Es256K,
    /// With a key of another kind in this process.
    Keys,
}

impl SignerKey {
    /// A signer with a private key in PEM.
    pub fn from_pem_bytes(cert_chain: Vec<u8>, private_key: Vec<u8>, alg: SigningAlg) -> (r: Self)
        ensures
            r == (SignerKey {
                cert_chain,
                alg,
                tsa_url: None,
                backend: SignBackend::Pem(private_key),
            }),
    {
        SignerKey { cert_chain, alg, tsa_url: None, backend: SignBackend::Pem(private_key) }
    }

    /// A signer that leaves signing to the host.
    pub fn host_from_pem_bytes(cert_chain: Vec<u8>, alg: SigningAlg) -> (r: Self)
        ensures
            r == (SignerKey { cert_chain, alg, tsa_url: None, backend: SignBackend::Host }),
    {
        SignerKey { cert_chain, alg, tsa_url: None, backend: SignBackend::Host }
    }

    /// Sets where time stamps come from.
    pub fn with_tsa_url(self, tsa_url: String) -> (r: Self)
        ensures
            r == (SignerKey { tsa_url: Some(tsa_url), ..self }),
    {
        SignerKey { tsa_url: Some(tsa_url), ..self }
    }

    /// How this signs: through the host where that is the backend, and else by
    /// the algorithm.
    pub fn path(&self) -> (r: SignPath)
        ensures
            r == match self.backend {
                SignBackend::Host => SignPath::Host,
                SignBackend::Pem(_) => if self.alg == SigningAlg::Es256K {
                    SignPath::Es256K
                } else {
                    SignPath::Keys
                },
            },
    {
        match &self.backend {
            SignBackend::Host => SignPath::Host,
            SignBackend::Pem(_) => if self.alg == SigningAlg::Es256K {
                SignPath::Es256K
            } else {
                SignPath::Keys
            },
        }
    }
}

/// How many bytes the host can put a signature into.
pub const HOST_SIG_BUF_LEN: usize = 1024;

/// What the host refused, in words.
pub open spec fn host_refusal(n: u32) -> Seq<char> {
    if n == u32::MAX {
        "host_sign rejected the request"@
    } else {
        "host_sign returned bogus length "@ + decimal(n as nat)
    }
}

/// The signature that the host put into `buf`, `n` being what it returned: how
/// many bytes, or the largest `u32` where it refused.
pub fn host_signature(buf: Vec<u8>, n: u32) -> (r: Result<Vec<u8>, String>)
    ensures
        match r {
            Ok(sig) => n != u32::MAX && n <= buf@.len() && sig@ == buf@.take(n as int),
            Err(e) => (n == u32::MAX || n > buf@.len()) && e@ == host_refusal(n),
        },
{
    if n == u32::MAX {
        return Err("host_sign rejected the request".to_string());
    }
    if n as u64 > buf.len() as u64 {
        let mut e = "host_sign returned bogus length ".to_string();
        push_decimal(&mut e, n as u64);
        return Err(e);
    }
    let mut sig = buf;
    sig.truncate(n as usize);
    assert(sig@ =~= buf@.take(n as int));
    Ok(sig)
}

/// The metadata assertion that carries no more than the date `when`.
pub open spec fn date_assertion(when: Seq<char>) -> JsonView {
    JsonView::Object(
        seq![
            MemberView { key: "label"@, value: JsonView::Text("cawg.metadata"@) },
            MemberView {
                key: "data"@,
                value: JsonView::Object(
                    seq![
                        MemberView {
                            key: "@context"@,
                            value: JsonView::Object(
                                seq![
                                    MemberView {
                                        key: "dc"@,
                                        value: JsonView::Text(
                                            "http://purl.org/dc/elements/1.1/"@,
                                        ),
                                    },
                                ],
                            ),
                        },
                        MemberView { key: "dc:date"@, value: JsonView::Text(when) },
                    ],
                ),
            },
        ],
    )
}

/// Whether `a` is the metadata assertion.
pub open spec fn is_metadata(a: JsonView) -> bool {
    member(a, "label"@) == Some(JsonView::Text("cawg.metadata"@))
}

/// The metadata assertion `a` with the date `when`.
pub open spec fn dated(a: JsonView, when: Seq<char>) -> JsonView {
    let ms = a->Object_0;
    let date = JsonView::Text(when);
    match member(a, "data"@) {
        Some(JsonView::Object(data)) => JsonView::Object(
            put(ms, "data"@, JsonView::Object(put(data, "dc:date"@, date))),
        ),
        _ => JsonView::Object(
            put(
                ms,
                "data"@,
                JsonView::Object(seq![MemberView { key: "dc:date"@, value: date }]),
            ),
        ),
    }
}

/// Where the metadata assertion is, from position `i` on.
pub open spec fn metadata_from(list: Seq<JsonView>, i: int) -> Option<int>
    decreases list.len() - i,
{
    if i >= list.len() {
        None
    } else if is_metadata(list[i]) {
        Some(i)
    } else {
        metadata_from(list, i + 1)
    }
}

/// The assertions with the date `when`: in the metadata assertion, or in one of
/// its own at the end.
pub open spec fn dated_list(list: Seq<JsonView>, when: Seq<char>) -> Seq<JsonView> {
    match metadata_from(list, 0) {
        Some(i) => list.update(i, dated(list[i], when)),
        None => list.push(date_assertion(when)),
    }
}

/// The manifest `m` with the date `when` in its metadata assertion.
pub open spec fn stamped(m: JsonView, when: Seq<char>) -> JsonView {
    match m {
        JsonView::Object(ms) => JsonView::Object(
            put(
                ms,
                "assertions"@,
                JsonView::List(
                    match member(m, "assertions"@) {
                        Some(JsonView::List(list)) => dated_list(list, when),
                        _ => seq![date_assertion(when)],
                    },
                ),
            ),
        ),
        _ => m,
    }
}

fn object_with(key: &str, value: Json) -> (r: Json)
    ensures
        r@ == JsonView::Object(seq![MemberView { key: key@, value: value@ }]),
{
    let mut ms: Vec<Member> = Vec::new();
    ms.push(Member { key: key.to_string(), value });
    proof {
        lemma_object_view(ms);
        assert(members_view(ms@) =~= seq![MemberView { key: key@, value: value@ }]);
    }
    Json::Object(ms)
}

fn make_date_assertion(when: &str) -> (r: Json)
    ensures
        r@ == date_assertion(when@),
{
    let context = object_with("dc", Json::Text("http://purl.org/dc/elements/1.1/".to_string()));
    let mut data: Vec<Member> = Vec::new();
    data.push(Member { key: "@context".to_string(), value: context });
    data.push(Member { key: "dc:date".to_string(), value: Json::Text(when.to_string()) });
    proof {
        lemma_object_view(data);
        assert(members_view(data@) =~= seq![
            MemberView { key: "@context"@, value: context@ },
            MemberView { key: "dc:date"@, value: JsonView::Text(when@) },
        ]);
    }
    let body = Json::Object(data);
    let label = Json::Text("cawg.metadata".to_string());
    let mut ms: Vec<Member> = Vec::new();
    ms.push(Member { key: "label".to_string(), value: label });
    ms.push(Member { key: "data".to_string(), value: body });
    proof {
        lemma_object_view(ms);
        assert(members_view(ms@) =~= seq![
            MemberView { key: "label"@, value: label@ },
            MemberView { key: "data"@, value: body@ },
        ]);
    }
    Json::Object(ms)
}

/// Puts the date into the metadata assertion.
fn date_metadata(a: Json, when: &str) -> (r: Json)
    requires
        is_metadata(a@),
    ensures
        r@ == dated(a@, when@),
{
    match a {
        Json::Object(members) => {
            let mut ms = members;
            proof {
                lemma_object_view(ms);
            }
            let ghost before = members_view(ms@);
            let date = Json::Text(when.to_string());
            match find_member(&ms, "data") {
                Some(i) => {
                    let old_member = ms.remove(i);
                    let ghost old_value = old_member.value@;
                    let value = match old_member.value {
                        Json::Object(d) => {
                            let mut data = d;
                            proof {
                                lemma_object_view(data);
                            }
                            put_member(&mut data, "dc:date", date);
                            proof {
                                lemma_object_view(data);
                            }
                            Json::Object(data)
                        },
                        _ => object_with("dc:date", date),
                    };
                    let ghost v = value@;
                    ms.insert(i, Member { key: old_member.key, value });
                    proof {
                        lemma_object_view(ms);
                        assert(before[i as int].value == old_value);
                        assert(members_view(ms@) =~= put(before, "data"@, v));
                    }
                },
                None => {
                    let value = object_with("dc:date", date);
                    put_member(&mut ms, "data", value);
                    proof {
                        lemma_object_view(ms);
                    }
                },
            }
            Json::Object(ms)
        },
        other => other,
    }
}

fn metadata_position(list: &Vec<Json>) -> (r: Option<usize>)
    ensures
        match r {
            Some(i) => metadata_from(values_view(list@), 0) == Some(i as int) && i < list@.len()
                && is_metadata(list@[i as int]@),
            None => metadata_from(values_view(list@), 0) is None,
        },
{
    let mut i: usize = 0;
    while i < list.len()
        invariant
            i <= list@.len(),
            metadata_from(values_view(list@), 0) == metadata_from(values_view(list@), i as int),
        decreases list@.len() - i,
    {
        let found: bool = match list[i].get("label") {
            Some(label) => match label.as_text() {
                Some(text) => same_text(text.as_str(), "cawg.metadata"),
                None => false,
            },
            None => false,
        };
        assert(found == is_metadata(list@[i as int]@));
        if found {
            return Some(i);
        }
        i += 1;
    }
    None
}

fn date_list(assertions: Vec<Json>, when: &str) -> (r: Vec<Json>)
    ensures
        values_view(r@) == dated_list(values_view(assertions@), when@),
{
    let mut list = assertions;
    match metadata_position(&list) {
        Some(i) => {
            let a = list.remove(i);
            list.insert(i, date_metadata(a, when));
        },
        None => {
            list.push(make_date_assertion(when));
        },
    }
    assert(values_view(list@) =~= dated_list(values_view(assertions@), when@));
    list
}

/// Puts the date `when` into a manifest.
pub fn stamp(manifest: Json, when: &str) -> (r: Json)
    ensures
        r@ == stamped(manifest@, when@),
{
    match manifest {
        Json::Object(members) => {
            let mut ms = members;
            proof {
                lemma_object_view(ms);
            }
            let ghost before = members_view(ms@);
            match find_member(&ms, "assertions") {
                Some(i) => {
                    let old_member = ms.remove(i);
                    let ghost old_value = old_member.value@;
                    let list = match old_member.value {
                        Json::List(assertions) => {
                            proof {
                                lemma_list_view(assertions);
                            }
                            date_list(assertions, when)
                        },
                        _ => {
                            let mut fresh: Vec<Json> = Vec::new();
                            fresh.push(make_date_assertion(when));
                            assert(values_view(fresh@) =~= seq![date_assertion(when@)]);
                            fresh
                        },
                    };
                    proof {
                        lemma_list_view(list);
                    }
                    let ghost v = JsonView::List(values_view(list@));
                    ms.insert(i, Member { key: old_member.key, value: Json::List(list) });
                    proof {
                        lemma_object_view(ms);
                        assert(before[i as int].value == old_value);
                        assert(members_view(ms@) =~= put(before, "assertions"@, v));
                    }
                },
                None => {
                    let mut fresh: Vec<Json> = Vec::new();
                    fresh.push(make_date_assertion(when));
                    proof {
                        assert(values_view(fresh@) =~= seq![date_assertion(when@)]);
                        lemma_list_view(fresh);
                    }
                    put_member(&mut ms, "assertions", Json::List(fresh));
                    proof {
                        lemma_object_view(ms);
                    }
                },
            }
            Json::Object(ms)
        },
        other => other,
    }
}

/// The text of a manifest with the date `when` in its metadata assertion. The
/// date is that of the segment, in RFC 3339 form.
pub fn stamp_segment_manifest(base: Json, when: &str) -> (r: String)
    ensures
        r@ == json_text(stamped(base@, when@)),
{
    write_json(&stamp(base, when))
}

proof fn lemma_find_range(ms: Seq<MemberView>, key: Seq<char>, i: int)
    ensures
        find_from(ms, key, i) matches Some(k) ==> i <= k < ms.len() && ms[k].key == key,
    decreases ms.len() - i,
{
    if i < ms.len() {
        lemma_find_range(ms, key, i + 1);
    }
}

proof fn lemma_find_put(ms: Seq<MemberView>, key: Seq<char>, value: JsonView, i: int)
    requires
        0 <= i <= ms.len(),
        find_from(ms, key, 0) == find_from(ms, key, i),
    ensures
        find_from(put(ms, key, value), key, i) is Some,
        put(ms, key, value)[find_from(put(ms, key, value), key, i)->Some_0].value == value,
    decreases ms.len() - i,
{
    let t = put(ms, key, value);
    if i == ms.len() {
        assert(find_from(ms, key, 0) is None);
        assert(t == ms.push(MemberView { key, value }));
        assert(t[i].key == key);
    } else if ms[i].key == key {
        assert(find_from(ms, key, 0) == Some(i));
        assert(t[i].key == key);
    } else {
        lemma_find_put(ms, key, value, i + 1);
        lemma_find_range(ms, key, i + 1);
        assert(t[i].key == ms[i].key);
    }
}

/// What is put under a key is found there.
proof fn lemma_member_put(ms: Seq<MemberView>, key: Seq<char>, value: JsonView)
    ensures
        member(JsonView::Object(put(ms, key, value)), key) == Some(value),
{
    lemma_find_put(ms, key, value, 0);
}

/// A stamped manifest has a list of assertions, and it is that of the manifest
/// with the date in its metadata assertion: nothing else in it changes, no
/// assertion is lost, and none is doubled.
pub proof fn law_stamp_keeps_assertions(m: JsonView, when: Seq<char>)
    requires
        m is Object,
    ensures
        member(stamped(m, when), "assertions"@) matches Some(JsonView::List(list)) && ({
            let before = match member(m, "assertions"@) {
                Some(JsonView::List(l)) => l,
                _ => seq![],
            };
            match metadata_from(before, 0) {
                Some(i) => {
                    &&& list.len() == before.len()
                    &&& list[i] == dated(before[i], when)
                    &&& forall|j: int| 0 <= j < list.len() && j != i ==> #[trigger] list[j] == before[j]
                },
                None => {
                    &&& list.len() == before.len() + 1
                    &&& list.last() == date_assertion(when)
                    &&& forall|j: int| 0 <= j < before.len() ==> #[trigger] list[j] == before[j]
                },
            }
        }),
{
    let ms = m->Object_0;
    let list = match member(m, "assertions"@) {
        Some(JsonView::List(l)) => dated_list(l, when),
        _ => seq![date_assertion(when)],
    };
    lemma_member_put(ms, "assertions"@, JsonView::List(list));
    if member(m, "assertions"@) is Some && member(m, "assertions"@)->Some_0 is List {
        lemma_metadata_in_range(member(m, "assertions"@)->Some_0->List_0, 0);
    }
}

proof fn lemma_metadata_in_range(list: Seq<JsonView>, i: int)
    requires
        0 <= i,
    ensures
        metadata_from(list, i) matches Some(k) ==> i <= k < list.len() && is_metadata(list[k]),
    decreases list.len() - i,
{
    if i < list.len() {
        lemma_metadata_in_range(list, i + 1);
    }
}

/// The date of a stamped metadata assertion is the one it was stamped with.
pub proof fn law_stamp_is_read_back(a: JsonView, when: Seq<char>)
    requires
        is_metadata(a),
    ensures
        member(dated(a, when), "data"@) matches Some(data) && member(data, "dc:date"@) == Some(
            JsonView::Text(when),
        ),
{
    let ms = a->Object_0;
    let date = JsonView::Text(when);
    match member(a, "data"@) {
        Some(JsonView::Object(data)) => {
            lemma_member_put(data, "dc:date"@, date);
            lemma_member_put(ms, "data"@, JsonView::Object(put(data, "dc:date"@, date)));
        },
        _ => {
            let fresh = seq![MemberView { key: "dc:date"@, value: date }];
            lemma_member_put(ms, "data"@, JsonView::Object(fresh));
            assert(find_from(fresh, "dc:date"@, 0) == Some(0int));
        },
    }
}

/// Whether `sign` made `signed` of the segment `data`.
pub open spec fn is_signed<F: Fn(&[u8]) -> Result<Vec<u8>, Error>>(
    sign: F,
    data: Seq<u8>,
    signed: Vec<u8>,
) -> bool {
    exists|d: &[u8]| d@ == data && #[trigger] call_ensures(sign, (d,), Ok::<Vec<u8>, Error>(signed))
}

/// Whether `sign` refused the segment `data` with `e`.
pub open spec fn is_refused<F: Fn(&[u8]) -> Result<Vec<u8>, Error>>(
    sign: F,
    data: Seq<u8>,
    e: Error,
) -> bool {
    exists|d: &[u8]| d@ == data && #[trigger] call_ensures(sign, (d,), Err::<Vec<u8>, Error>(e))
}

/// Says that the signing prefixes of a GOP's tracks are not all of one size.
pub open spec fn drift_text(expected: int, got: int, tid: u32) -> Seq<char> {
    "per-segment c2pa-uuid size drift across tracks: expected "@ + decimal(expected as nat)
        + ", got "@ + decimal(got as nat) + " for track "@ + decimal(tid as nat)
}

fn drift_error(expected: usize, got: usize, tid: u32) -> (e: Error)
    ensures
        e@ == ErrorView::InvalidMp4(drift_text(expected as int, got as int, tid)),
{
    let mut text = "per-segment c2pa-uuid size drift across tracks: expected ".to_string();
    push_decimal(&mut text, expected as u64);
    text.push_str(", got ");
    push_decimal(&mut text, got as u64);
    text.push_str(" for track ");
    push_decimal(&mut text, tid as u64);
    Error::InvalidMp4(text)
}

/// `g` with the signed segments in place of its own: their samples lie past the
/// signing prefix, and every track has grown by it.
pub open spec fn resigned(g: GopView, signed: Map<u32, Seq<u8>>, prefix: int) -> GopView {
    GopView {
        tracks: signed,
        samples: g.samples.map_values(|s: SamplesView| moved(s, prefix)),
        body_size: sat64(g.body_size + prefix * sorted(g.tracks.dom()).len()),
        ..g
    }
}

/// The bytes of the tracks in `m`.
pub open spec fn bytes_of_tracks(m: Map<u32, Vec<u8>>) -> Map<u32, Seq<u8>> {
    m.map_values(|v: Vec<u8>| v@)
}

/// Whether `signed` are the tracks of `g`, each signed, with a prefix of the
/// given size.
pub open spec fn all_signed<F: Fn(&[u8]) -> Result<Vec<u8>, Error>>(
    sign: F,
    g: GopView,
    signed: Map<u32, Vec<u8>>,
    prefix: int,
) -> bool {
    &&& signed.dom() == g.tracks.dom()
    &&& forall|t: u32| #[trigger]
        signed.contains_key(t) ==> is_signed(sign, g.tracks[t], signed[t]) && signed[t]@.len()
            == g.tracks[t].len() + prefix
    &&& signed.dom() == Set::<u32>::empty() ==> prefix == 0
}

/// Whether `after` is `g` with its tracks signed, behind prefixes of the given
/// size.
pub open spec fn is_resigned<F: Fn(&[u8]) -> Result<Vec<u8>, Error>>(
    sign: F,
    g: GopView,
    after: GopView,
    prefix: int,
) -> bool {
    exists|signed: Map<u32, Vec<u8>>| #[trigger]
        all_signed(sign, g, signed, prefix) && after == resigned(
            g,
            bytes_of_tracks(signed),
            prefix,
        )
}

/// Whether `e` is why the tracks of `g` cannot be signed: one was refused, one
/// shrank, or the prefixes differ in size.
pub open spec fn sign_fails<F: Fn(&[u8]) -> Result<Vec<u8>, Error>>(
    sign: F,
    g: GopView,
    e: Error,
) -> bool {
    ||| exists|t: u32| #[trigger] g.tracks.contains_key(t) && is_refused(sign, g.tracks[t], e)
    ||| exists|t: u32, s: Vec<u8>|
        g.tracks.contains_key(t) && #[trigger] is_signed(sign, g.tracks[t], s) && s@.len()
            < g.tracks[t].len() && e@ == ErrorView::InvalidMp4(
            "signed canonical segment shorter than unsigned"@,
        )
    ||| exists|a: u32, x: Vec<u8>, t: u32, s: Vec<u8>|
        {
            &&& g.tracks.contains_key(a) && g.tracks.contains_key(t)
            &&& #[trigger] is_signed(sign, g.tracks[a], x)
            &&& #[trigger] is_signed(sign, g.tracks[t], s)
            &&& x@.len() >= g.tracks[a].len() && s@.len() >= g.tracks[t].len()
            &&& x@.len() - g.tracks[a].len() != s@.len() - g.tracks[t].len()
            &&& e@ == ErrorView::InvalidMp4(
                drift_text(x@.len() - g.tracks[a].len(), s@.len() - g.tracks[t].len(), t),
            )
        }
}

fn move_samples(samples: &BTreeMap<u32, TrackSamples>, prefix: usize) -> (r: BTreeMap<
    u32,
    TrackSamples,
>)
    ensures
        r@.map_values(|s: TrackSamples| s@) == samples@.map_values(
            |s: TrackSamples| s@,
        ).map_values(|s: SamplesView| moved(s, prefix as int)),
{
    let ids = keys_of(samples);
    let mut out: BTreeMap<u32, TrackSamples> = BTreeMap::new();
    let mut j: usize = 0;
    while j < ids.len()
        invariant
            j <= ids@.len(),
            lists(ids@, samples@.dom()),
            forall|k: u32| #[trigger]
                out@.contains_key(k) == exists|x: int| 0 <= x < j && ids@[x] == k,
            forall|k: u32| #[trigger]
                out@.contains_key(k) ==> samples@.contains_key(k) && out@[k]@ == moved(
                    samples@[k]@,
                    prefix as int,
                ),
        decreases ids@.len() - j,
    {
        let tid: u32 = ids[j];
        assert(ids@.contains(tid)) by {
            assert(ids@[j as int] == tid);
        }
        match samples.get(&tid) {
            None => {},
            Some(s) => {
                let mut t = s.duplicate();
                t.offsets_in_track = shift_offsets(&s.offsets_in_track, prefix as u64);
                assert(t@ =~= moved(s@, prefix as int));
                out.insert(tid, t);
            },
        }
        j += 1;
    }
    proof {
        assert forall|k: u32| out@.contains_key(k) == samples@.contains_key(k) by {
            if samples@.contains_key(k) {
                assert(ids@.contains(k));
                assert(ids@[ids@.index_of(k)] == k);
            }
        }
        let a = out@.map_values(|s: TrackSamples| s@);
        let b = samples@.map_values(|s: TrackSamples| s@).map_values(
            |s: SamplesView| moved(s, prefix as int),
        );
        assert(a =~= b);
    }
    out
}

/// The size of a body whose `n` tracks have each grown by `prefix` bytes.
fn grown_size(body_size: u64, prefix: usize, n: usize) -> (r: u64)
    ensures
        r == sat64(body_size + prefix * n),
{
    let a: u64 = prefix as u64;
    let b: u64 = n as u64;
    proof {
        assert(a as u128 * b as u128 <= 0xffff_ffff_ffff_ffff * 0xffff_ffff_ffff_ffff)
            by (nonlinear_arith);
        assert(prefix * n >= 0) by (nonlinear_arith);
    }
    let total: u128 = body_size as u128 + a as u128 * b as u128;
    if total > 0xffff_ffff_ffff_ffff {
        0xffff_ffff_ffff_ffff
    } else {
        total as u64
    }
}

/// Signs every track of a GOP as an asset of its own, puts the signed bytes in
/// place of the segments, and moves the samples past the signing prefix. Returns
/// the size of the prefix, which has to be the same for all tracks. A failure
/// leaves the GOP as it was.
pub fn sign_gop_canonical_segments_in_place<F: Fn(&[u8]) -> Result<Vec<u8>, Error>>(
    gop: &mut GopSegment,
    sign: &F,
) -> (r: Result<usize, Error>)
    requires
        forall|d: &[u8]| #[trigger] call_requires(*sign, (d,)),
    ensures
        match r {
            Ok(prefix) => is_resigned(*sign, old(gop)@, final(gop)@, prefix as int),
            Err(e) => sign_fails(*sign, old(gop)@, e) && final(gop)@ == old(gop)@,
        },
{
    let ghost g = gop@;
    let ids = keys_of(&gop.tracks);
    let mut signed: BTreeMap<u32, Vec<u8>> = BTreeMap::new();
    let mut prefix: Option<usize> = None;
    let mut i: usize = 0;
    assert(g.tracks.dom() =~= gop.tracks@.dom());
    while i < ids.len()
        invariant
            i <= ids@.len(),
            g == gop@,
            g == old(gop)@,
            lists(ids@, gop.tracks@.dom()),
            g.tracks.dom() == gop.tracks@.dom(),
            forall|d: &[u8]| #[trigger] call_requires(*sign, (d,)),
            prefix is None <==> i == 0,
            forall|k: u32| #[trigger]
                signed@.contains_key(k) == exists|x: int| 0 <= x < i && ids@[x] == k,
            forall|k: u32| #[trigger]
                signed@.contains_key(k) ==> g.tracks.contains_key(k) && is_signed(
                    *sign,
                    g.tracks[k],
                    signed@[k],
                ) && (prefix matches Some(p) && signed@[k]@.len() == g.tracks[k].len() + p),
        decreases ids@.len() - i,
    {
        let tid: u32 = ids[i];
        assert(ids@.contains(tid)) by {
            assert(ids@[i as int] == tid);
        }
        assert(gop.tracks@.contains_key(tid));
        match gop.tracks.get(&tid) {
            None => {},
            Some(data) => {
                assert(g.tracks[tid] == data@);
                assert(g.tracks.contains_key(tid));
                let made = match (*sign)(data.as_slice()) {
                    Ok(v) => v,
                    Err(e) => {
                        assert(is_refused(*sign, g.tracks[tid], e));
                        return Err(e);
                    },
                };
                assert(is_signed(*sign, g.tracks[tid], made));
                if made.len() < data.len() {
                    return Err(invalid_mp4("signed canonical segment shorter than unsigned"));
                }
                let this: usize = made.len() - data.len();
                match prefix {
                    None => {
                        prefix = Some(this);
                    },
                    Some(p) => {
                        if p != this {
                            proof {
                                let a = ids@[0];
                                assert(signed@.contains_key(a));
                                assert(is_signed(*sign, g.tracks[a], signed@[a]));
                            }
                            return Err(drift_error(p, this, tid));
                        }
                    },
                }
                signed.insert(tid, made);
            },
        }
        i += 1;
    }
    proof {
        assert forall|k: u32| signed@.contains_key(k) == g.tracks.contains_key(k) by {
            if g.tracks.contains_key(k) {
                assert(ids@.contains(k));
                assert(ids@[ids@.index_of(k)] == k);
            }
        }
        assert(signed@.dom() =~= g.tracks.dom());
        if ids@.len() > 0 {
            assert(ids@.contains(ids@[0]));
            assert(signed@.contains_key(ids@[0]));
        }
    }
    let p: usize = match prefix {
        Some(p) => p,
        None => 0,
    };
    let ghost made = signed@;
    assert(all_signed(*sign, g, made, p as int));
    let body_size: u64 = grown_size(gop.body_size, p, ids.len());
    let samples = move_samples(&gop.samples, p);
    gop.samples = samples;
    gop.body_size = body_size;
    gop.tracks = signed;
    proof {
        let want = resigned(g, bytes_of_tracks(made), p as int);
        assert(gop@.tracks =~= want.tracks);
        assert(gop@.samples =~= want.samples);
        assert(p * ids@.len() == p as int * sorted(g.tracks.dom()).len());
        assert(gop@ =~= want);
        assert(is_resigned(*sign, g, gop@, p as int));
    }
    Ok(p)
}

/// Whether a stream of events to be signed has had its init segment, after the
/// event `e`.
pub open spec fn init_came(before: bool, e: EventView) -> bool {
    before || e is Init
}

/// A signed event, and what is said of it.
#[derive(Debug)]
pub struct SignedOutput {
    pub event: SignedEvent,
    pub line: Option<String>,
}

/// The line about a signed GOP with a signing prefix of `prefix` bytes.
pub open spec fn signed_line(g: GopView, prefix: nat) -> Seq<char> {
    "signed segment "@ + decimal(g.number as nat) + ": "@ + decimal(g.tracks.dom().len())
        + " canonical segments, "@ + decimal(gop_size(g) as nat) + " bytes (c2pa prefix "@
        + decimal(prefix) + " bytes/track)"@
}

fn say_signed(gop: &GopSegment, prefix: usize) -> (r: String)
    ensures
        r@ == signed_line(gop@, prefix as nat),
{
    let mut out = "signed segment ".to_string();
    push_decimal(&mut out, gop.number as u64);
    out.push_str(": ");
    let tracks: usize = gop.tracks.len();
    assert(gop@.tracks.dom() =~= gop.tracks@.dom());
    push_decimal(&mut out, tracks as u64);
    out.push_str(" canonical segments, ");
    push_decimal(&mut out, size_of_gop(gop));
    out.push_str(" bytes (c2pa prefix ");
    push_decimal(&mut out, prefix as u64);
    out.push_str(" bytes/track)");
    out
}

/// The signed event of an event of the segmenter. A GOP before any init segment
/// is refused.
///
/// `build_track_inits` makes the per-track init segments of a catalog; where it
/// fails, they are left out. `sign` signs one segment.
pub fn sign_event<
    T: Fn(&Catalog) -> Result<BTreeMap<u32, Vec<u8>>, Error>,
    F: Fn(&[u8]) -> Result<Vec<u8>, Error>,
>(event: SegmenterEvent, init_seen: &mut bool, build_track_inits: &T, sign: &F) -> (r: Result<
    SignedOutput,
    Error,
>)
    requires
        forall|c: &Catalog| #[trigger] call_requires(*build_track_inits, (c,)),
        forall|d: &[u8]| #[trigger] call_requires(*sign, (d,)),
    ensures
        *final(init_seen) == init_came(*old(init_seen), event@),
        match event {
            SegmenterEvent::InitSegment { catalog, data } => exists|
                inits: Result<BTreeMap<u32, Vec<u8>>, Error>,
            | #[trigger]
                call_ensures(*build_track_inits, (&catalog,), inits) && (r matches Ok(out) && out.line is None
                    && out.event@ == (
                SignedEventView::Init {
                    data: data@,
                    catalog: Some(catalog@),
                    track_inits: match inits {
                        Ok(m) => by_text(m@.map_values(|v: Vec<u8>| v@)),
                        Err(_) => Map::empty(),
                    },
                })),
            SegmenterEvent::Segment(gop) => if !*old(init_seen) {
                r matches Err(e) && e@ == ErrorView::InvalidMp4(
                    "segment received before init segment"@,
                )
            } else {
                match r {
                    Err(e) => sign_fails(*sign, gop@, e),
                    Ok(out) => exists|g: GopView, prefix: int| #[trigger]
                        is_resigned(*sign, gop@, g, prefix) && prefix >= 0 && out.event@
                            == signed_event(g) && (out.line matches Some(t) && t@ == signed_line(
                            g,
                            prefix as nat,
                        )),
                }
            },
        },
{
    match event {
        SegmenterEvent::InitSegment { catalog, data } => {
            *init_seen = true;
            let inits = (*build_track_inits)(&catalog);
            let ghost c = catalog;
            let track_inits = match &inits {
                Ok(m) => keyed_bytes(m),
                Err(_) => KeyMap::new(),
            };
            let ev = SignedEvent::Init { data, catalog: Some(catalog), track_inits };
            assert(call_ensures(*build_track_inits, (&c,), inits));
            Ok(SignedOutput { event: ev, line: None })
        },
        SegmenterEvent::Segment(gop) => {
            if !*init_seen {
                return Err(invalid_mp4("segment received before init segment"));
            }
            let mut gop = gop;
            match sign_gop_canonical_segments_in_place(&mut gop, sign) {
                Err(e) => Err(e),
                Ok(prefix) => {
                    let line = say_signed(&gop, prefix);
                    Ok(SignedOutput { event: SignedEvent::signed_from_gop(gop), line: Some(line) })
                },
            }
        },
    }
}

/// The event of a GOP that is signed.
pub open spec fn signed_event(g: GopView) -> SignedEventView {
    SignedEventView::SignedSegment {
        number: g.number,
        tracks: by_text(g.tracks),
        durations: by_text(g.durations),
        sample_counts: by_text(g.sample_counts),
        samples: by_text(g.samples),
        first_decode_times: Map::empty(),
        body_size: g.body_size,
        duration_us: g.duration_us,
    }
}

/// The key in a private key's PEM, for signing with it in this process.
pub fn es256k_key(private_key: &[u8]) -> (r: Result<SecretKey, String>)
    ensures
        match r {
            Ok(k) => valid_utf8(private_key@) && pkcs8_scalar(decode_utf8(private_key@)) == Ok::<
                Seq<u8>,
                Seq<char>,
            >(k@),
            Err(e) => if valid_utf8(private_key@) {
                pkcs8_scalar(decode_utf8(private_key@)) matches Err(t) && e@
                    == "bad ES256K key PEM: "@ + t
            } else {
                e@ == "private key is not UTF-8 PEM"@
            },
        },
{
    let pem = match read_utf8(private_key) {
        Some(t) => t,
        None => return Err("private key is not UTF-8 PEM".to_string()),
    };
    match SecretKey::from_pkcs8_pem(pem.as_str()) {
        Ok(k) => Ok(k),
        Err(t) => {
            let mut out = "bad ES256K key PEM: ".to_string();
            out.push_str(t.as_str());
            Err(out)
        },
    }
}

/// The manifest in a JSON text.
pub fn read_manifest(text: &str) -> (r: Result<Json, String>)
    ensures
        match r {
            Ok(j) => parsed_json(text@) == Ok::<JsonView, Seq<char>>(j@),
            Err(e) => parsed_json(text@) matches Err(t) && e@ == "segment manifest JSON: "@ + t,
        },
{
    match read_json(text) {
        Ok(j) => Ok(j),
        Err(t) => {
            let mut out = "segment manifest JSON: ".to_string();
            out.push_str(t.as_str());
            Err(out)
        },
    }
}

/// The ingredient that the source of a transcoded segment is declared as: its
/// parent, under the label that the manifest's actions name it by.
pub open spec fn ingredient_text() -> Seq<char> {
    "{\"title\":\"source segment\",\"relationship\":\"parentOf\",\"label\":\""@
        + TRANSCODE_INGREDIENT_LABEL@ + "\"}"@
}

/// The ingredient that the source of a transcoded segment is declared as.
pub fn transcode_ingredient() -> (r: String)
    ensures
        r@ == ingredient_text(),
{
    let mut out = "{\"title\":\"source segment\",\"relationship\":\"parentOf\",\"label\":\"".to_string();
    out.push_str(TRANSCODE_INGREDIENT_LABEL);
    out.push_str("\"}");
    out
}

/// Why a transcoded segment was not signed.
#[derive(Debug)]
pub enum TranscodeFault<E> {
    /// The manifest is no JSON text.
    Manifest(String),
    /// The signer refused.
    Sign(E),
}

/// Whether `sign` was given the manifest `text`, as it is at the time `when`, the
/// ingredient, the source and the output, and answered as `r` tells.
pub open spec fn transcode_asked<E, F: Fn(&str, &str, &[u8], &[u8]) -> Result<Vec<u8>, E>>(
    sign: F,
    base: JsonView,
    when: Seq<char>,
    text: &str,
    ingredient: &str,
    source: &[u8],
    output: &[u8],
    r: Result<Vec<u8>, TranscodeFault<E>>,
) -> bool {
    &&& is_time_now(when)
    &&& text@ == json_text(stamped(base, when))
    &&& ingredient@ == ingredient_text()
    &&& match r {
        Ok(signed) => call_ensures(
            sign,
            (text, ingredient, source, output),
            Ok::<Vec<u8>, E>(signed),
        ),
        Err(TranscodeFault::Sign(e)) => call_ensures(
            sign,
            (text, ingredient, source, output),
            Err::<Vec<u8>, E>(e),
        ),
        Err(TranscodeFault::Manifest(_)) => false,
    }
}

/// Signs the transcoded segment `output`, naming the segment `source` that it was made of
/// as its parent. The manifest is given the present time.
///
/// `sign` signs: it is given the manifest, the ingredient that the source is declared
/// as, the source and the output, and returns the signed output.
pub fn sign_transcode_segment<E, F: Fn(&str, &str, &[u8], &[u8]) -> Result<Vec<u8>, E>>(
    output: &[u8],
    source: &[u8],
    manifest: &str,
    sign: &F,
) -> (r: Result<Vec<u8>, TranscodeFault<E>>)
    requires
        forall|text: &str, ingredient: &str| #[trigger]
            call_requires(*sign, (text, ingredient, source, output)),
    ensures
        match parsed_json(manifest@) {
            Err(t) => r matches Err(TranscodeFault::Manifest(e)) && e@ == "segment manifest JSON: "@
                + t,
            Ok(base) => exists|when: Seq<char>, text: &str, ingredient: &str| #[trigger]
                transcode_asked(*sign, base, when, text, ingredient, source, output, r),
        },
{
    let base = match read_manifest(manifest) {
        Ok(j) => j,
        Err(e) => return Err(TranscodeFault::Manifest(e)),
    };
    let ghost view = base@;
    let when = now_rfc3339_utc();
    let text = stamp_segment_manifest(base, when.as_str());
    let ingredient = transcode_ingredient();
    let text: &str = text.as_str();
    let ingredient: &str = ingredient.as_str();
    let r = match (*sign)(text, ingredient, source, output) {
        Ok(signed) => Ok(signed),
        Err(e) => Err(TranscodeFault::Sign(e)),
    };
    assert(transcode_asked(
        *sign,
        view,
        when@,
        text,
        ingredient,
        source,
        output,
        r,
    ));
    r
}

} // verus!
