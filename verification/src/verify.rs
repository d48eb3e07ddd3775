//! Verification: what a signed segment's manifest and certificate say.
//!
//! The cryptographic check of a segment belongs to the caller; its outcome is
//! read and put together here.

use vstd::prelude::*;
use vstd::slice::slice_subrange;

use crate::catalog::Catalog;
use crate::encode::{hex, hex_lower};
use crate::error::{invalid_mp4, Error, ErrorView};
use crate::inspect::{data_of, text_opt};
use crate::json::{
    json_number, json_text, lemma_list_view, lemma_object_view, member, members_view, number_of,
    push_member, values_view, write_json, Json, JsonView, Member, MemberView,
};
use crate::keymap::texts;
use crate::reader::{decoded, splits, unwrap, unwrap_fails, wrapped_segments, Segment};
use crate::text::{
    char_from, chars_of, decimal, find_char, has_prefix, lemma_char_from, push_decimal, same_text,
    starts, string_of, trim_chars, trimmed,
};

verus! {

/// Whether `pem` holds anything besides line breaks.
pub open spec fn has_content(pem: Seq<char>) -> bool {
    exists|i: int| 0 <= i < pem.len() && #[trigger] pem[i] != '\r' && pem[i] != '\n'
}

fn is_blank(pem: &str) -> (r: bool)
    ensures
        r == !has_content(pem@),
{
    let cs = chars_of(pem);
    let mut i: usize = 0;
    while i < cs.len()
        invariant
            i <= cs@.len(),
            cs@ == pem@,
            forall|j: int| 0 <= j < i ==> #[trigger] cs@[j] == '\r' || cs@[j] == '\n',
        decreases cs@.len() - i,
    {
        if cs[i] != '\r' && cs[i] != '\n' {
            assert(pem@[i as int] != '\r' && pem@[i as int] != '\n');
            return false;
        }
        i += 1;
    }
    true
}

/// The subject of the first certificate in `pem`, in the form of RFC 4514; none
/// where the chain cannot be read.
pub uninterp spec fn leaf_subject(pem: Seq<char>) -> Option<Seq<char>>;

/// The public key of the first certificate in `pem`; none where the chain cannot
/// be read.
pub uninterp spec fn leaf_key(pem: Seq<char>) -> Option<Seq<u8>>;

/// Calls `x509_cert::Certificate::load_pem_chain`, and `to_string` of the first
/// certificate's subject. Both depend on the text alone; neither is stated here.
/// The call is not made for a chain of nothing but line breaks, which it does not
/// take.
#[verifier::external_body]
fn read_leaf_subject(pem: &str) -> (r: Option<String>)
    requires
        has_content(pem@),
    ensures
        match r {
            Some(s) => leaf_subject(pem@) == Some(s@),
            None => leaf_subject(pem@) is None,
        },
{
    let chain = x509_cert::Certificate::load_pem_chain(pem.as_bytes()).ok()?;
    Some(chain.first()?.tbs_certificate.subject.to_string())
}

/// Calls `x509_cert::Certificate::load_pem_chain`, and reads the bytes of the
/// first certificate's public key. They depend on the text alone; they are not
/// stated here. The call is not made for a chain of nothing but line breaks,
/// which it does not take.
#[verifier::external_body]
fn read_leaf_key(pem: &str) -> (r: Option<Vec<u8>>)
    requires
        has_content(pem@),
    ensures
        match r {
            Some(k) => leaf_key(pem@) == Some(k@),
            None => leaf_key(pem@) is None,
        },
{
    let chain = x509_cert::Certificate::load_pem_chain(pem.as_bytes()).ok()?;
    let info = &chain.first()?.tbs_certificate.subject_public_key_info;
    Some(info.subject_public_key.raw_bytes().to_vec())
}

/// The common name in a subject, looked for from position `i` on: of the parts
/// between commas, without white space around them, what follows `CN=` in the
/// first that begins with it.
pub open spec fn common_name_from(subject: Seq<char>, i: int) -> Option<Seq<char>>
    decreases subject.len() - i,
    when 0 <= i <= subject.len()
    via common_name_ends
{
    let end = match char_from(subject, ',', i) {
        Some(k) => k,
        None => subject.len() as int,
    };
    let part = trimmed(subject.subrange(i, end));
    if starts(part, "CN="@) {
        Some(part.skip("CN="@.len() as int))
    } else if end == subject.len() {
        None
    } else {
        common_name_from(subject, end + 1)
    }
}

#[via_fn]
proof fn common_name_ends(subject: Seq<char>, i: int) {
    lemma_char_from(subject, ',', i);
}

/// The common name in a subject, or all of it where it has none.
pub open spec fn common_name(subject: Seq<char>) -> Seq<char> {
    match common_name_from(subject, 0) {
        Some(name) => name,
        None => subject,
    }
}

/// Takes the common name out of a subject in the form of RFC 4514.
pub fn subject_common_name(subject: &str) -> (r: String)
    ensures
        r@ == common_name(subject@),
{
    let cs = chars_of(subject);
    let s = cs.as_slice();
    let skip: usize = chars_of("CN=").len();
    let mut i: usize = 0;
    loop
        invariant
            i <= cs@.len(),
            cs@ == subject@,
            s@ == cs@,
            skip == "CN="@.len(),
            common_name_from(subject@, 0) == common_name_from(subject@, i as int),
        decreases cs@.len() - i,
    {
        let end: usize = match find_char(s, ',', i) {
            Some(k) => k,
            None => cs.len(),
        };
        let part = trim_chars(slice_subrange(s, i, end));
        if has_prefix(part.as_slice(), "CN=") {
            let name = string_of(slice_subrange(part.as_slice(), skip, part.len()));
            assert(name@ =~= part@.skip(skip as int));
            return name;
        }
        if end == cs.len() {
            return subject.to_string();
        }
        i = end + 1;
    }
}

/// The common name of the first certificate in a chain: the identity of the
/// signer.
pub fn leaf_subject_cn(pem: &str) -> (r: Option<String>)
    ensures
        has_content(pem@) ==> match leaf_subject(pem@) {
            Some(subject) => r matches Some(name) && name@ == common_name(subject),
            None => r is None,
        },
        !has_content(pem@) ==> r is None,
{
    if is_blank(pem) {
        return None;
    }
    match read_leaf_subject(pem) {
        Some(subject) => Some(subject_common_name(subject.as_str())),
        None => None,
    }
}

/// The public key of the first certificate in a chain, in hexadecimal.
pub open spec fn leaf_key_text(pem: Seq<char>) -> Option<Seq<char>> {
    if !has_content(pem) {
        None
    } else {
        match leaf_key(pem) {
            Some(key) => Some(hex(key)),
            None => None,
        }
    }
}

/// The public key of the first certificate in a chain, in hexadecimal.
pub fn leaf_pubkey_hex(pem: &str) -> (r: Option<String>)
    ensures
        match r {
            Some(s) => leaf_key_text(pem@) == Some(s@),
            None => leaf_key_text(pem@) is None,
        },
{
    if is_blank(pem) {
        return None;
    }
    match read_leaf_key(pem) {
        Some(key) => Some(hex_lower(key.as_slice())),
        None => None,
    }
}

/// An assertion of a manifest. Its value is there where it is JSON.
pub struct Assertion {
    pub label: String,
    pub value: Option<Json>,
}

/// The text under `key`, if there is one.
pub open spec fn text_member(j: JsonView, key: Seq<char>) -> Option<Seq<char>> {
    match member(j, key) {
        Some(JsonView::Text(s)) => Some(s),
        _ => None,
    }
}

fn get_text(j: &Json, key: &str) -> (r: Option<String>)
    ensures
        match r {
            Some(s) => text_member(j@, key@) == Some(s@),
            None => text_member(j@, key@) is None,
        },
{
    match j.get(key) {
        Some(v) => match v.as_text() {
            Some(s) => Some(s.clone()),
            None => None,
        },
        None => None,
    }
}

/// The first metadata assertion, from position `i` on.
pub open spec fn metadata_at(assertions: Seq<Assertion>, i: int) -> Option<int>
    decreases assertions.len() - i,
{
    if i >= assertions.len() {
        None
    } else if assertions[i].label@ == "cawg.metadata"@ {
        Some(i)
    } else {
        metadata_at(assertions, i + 1)
    }
}

/// What a metadata assertion names: a creator and a date.
pub struct Credits {
    pub creator: Option<String>,
    pub date: Option<String>,
}

/// The creator and the date that the first metadata assertion names, if it names
/// either.
pub open spec fn credited(assertions: Seq<Assertion>) -> (Option<Seq<char>>, Option<Seq<char>>) {
    match metadata_at(assertions, 0) {
        None => (None, None),
        Some(i) => match assertions[i].value {
            None => (None, None),
            Some(j) => (text_member(j@, "dc:creator"@), text_member(j@, "dc:date"@)),
        },
    }
}

/// Reads the creator and the date out of the metadata assertion.
pub fn cawg_creator_and_date(assertions: &[Assertion]) -> (r: Option<Credits>)
    ensures
        match r {
            Some(c) => {
                &&& text_opt(c.creator) == credited(assertions@).0
                &&& text_opt(c.date) == credited(assertions@).1
                &&& c.creator is Some || c.date is Some
            },
            None => credited(assertions@).0 is None && credited(assertions@).1 is None,
        },
{
    let mut i: usize = 0;
    while i < assertions.len()
        invariant
            i <= assertions@.len(),
            metadata_at(assertions@, 0) == metadata_at(assertions@, i as int),
        decreases assertions@.len() - i,
    {
        if same_text(assertions[i].label.as_str(), "cawg.metadata") {
            return match &assertions[i].value {
                None => None,
                Some(j) => {
                    let creator = get_text(j, "dc:creator");
                    let date = get_text(j, "dc:date");
                    if creator.is_none() && date.is_none() {
                        None
                    } else {
                        Some(Credits { creator, date })
                    }
                },
            };
        }
        i += 1;
    }
    None
}

/// The names of the first `n` actions in a list.
pub open spec fn names_in(actions: Seq<JsonView>, n: int) -> Seq<Seq<char>>
    decreases n,
{
    if n <= 0 {
        seq![]
    } else {
        let before = names_in(actions, n - 1);
        match text_member(actions[n - 1], "action"@) {
            Some(name) => before.push(name),
            None => before,
        }
    }
}

/// The names of the actions in an assertion.
pub open spec fn names_of(a: Assertion) -> Seq<Seq<char>> {
    if a.label@ != "c2pa.actions"@ && a.label@ != "c2pa.actions.v2"@ {
        seq![]
    } else {
        match a.value {
            None => seq![],
            Some(j) => match member(j@, "actions"@) {
                Some(JsonView::List(actions)) => names_in(actions, actions.len() as int),
                _ => seq![],
            },
        }
    }
}

/// The names of the actions in the first `n` assertions.
pub open spec fn all_names(assertions: Seq<Assertion>, n: int) -> Seq<Seq<char>>
    decreases n,
{
    if n <= 0 {
        seq![]
    } else {
        all_names(assertions, n - 1) + names_of(assertions[n - 1])
    }
}

fn push_names(out: &mut Vec<String>, actions: &Vec<Json>)
    ensures
        texts(final(out)@) == texts(old(out)@) + names_in(
            values_view(actions@),
            actions@.len() as int,
        ),
{
    let ghost base = texts(out@);
    let mut i: usize = 0;
    assert(base + names_in(values_view(actions@), 0) =~= base);
    while i < actions.len()
        invariant
            i <= actions@.len(),
            texts(out@) == base + names_in(values_view(actions@), i as int),
        decreases actions@.len() - i,
    {
        assert(values_view(actions@)[i as int] == actions@[i as int]@);
        match get_text(&actions[i], "action") {
            Some(name) => {
                let ghost before = out@;
                let ghost n = name@;
                out.push(name);
                assert(texts(out@) =~= texts(before).push(n));
                assert(texts(out@) =~= base + names_in(values_view(actions@), i + 1));
            },
            None => {},
        }
        i += 1;
    }
}

/// Lists the names of the actions that a manifest's assertions record.
pub fn action_names(assertions: &[Assertion]) -> (r: Vec<String>)
    ensures
        texts(r@) == all_names(assertions@, assertions@.len() as int),
{
    let mut out: Vec<String> = Vec::new();
    let mut i: usize = 0;
    assert(texts(out@) =~= seq![]);
    while i < assertions.len()
        invariant
            i <= assertions@.len(),
            texts(out@) == all_names(assertions@, i as int),
        decreases assertions@.len() - i,
    {
        let a = &assertions[i];
        assert(texts(out@) + seq![] =~= texts(out@));
        if same_text(a.label.as_str(), "c2pa.actions") || same_text(
            a.label.as_str(),
            "c2pa.actions.v2",
        ) {
            match &a.value {
                None => {},
                Some(j) => match j.get("actions") {
                    Some(Json::List(actions)) => {
                        proof {
                            lemma_list_view(*actions);
                        }
                        push_names(&mut out, actions);
                    },
                    _ => {},
                },
            }
        }
        i += 1;
    }
    out
}

/// A signed manifest, as the check of a segment gave it.
pub struct CheckedManifest {
    pub manifest: Json,
    /// The certificate chain in PEM; none where the manifest has no signature.
    pub cert_chain: Option<String>,
}

/// The outcome of the check of a segment.
pub struct Checked {
    /// None where the segment has no active manifest.
    pub manifest: Option<CheckedManifest>,
    pub validation_results: Json,
    pub validation_state: Json,
}

/// The entry of a segment of track `tid`, `m` being its manifest.
pub open spec fn entry_of(tid: u32, c: Checked, m: CheckedManifest, chain: Seq<char>) -> JsonView {
    JsonView::Object(
        seq![
            MemberView { key: "track_id"@, value: JsonView::Number(json_number(tid as u64)) },
            MemberView { key: "manifest"@, value: m.manifest@ },
            MemberView { key: "cert"@, value: JsonView::Text(chain) },
            MemberView {
                key: "signer_pubkey"@,
                value: match leaf_key_text(chain) {
                    Some(k) => JsonView::Text(k),
                    None => JsonView::Null,
                },
            },
            MemberView { key: "validation_results"@, value: c.validation_results@ },
            MemberView { key: "validation_state"@, value: c.validation_state@ },
        ],
    )
}

/// What becomes of a segment of track `tid` with the outcome `c`: its entry, or
/// why it has none.
pub open spec fn judged(tid: u32, c: Checked) -> Result<JsonView, Seq<char>> {
    match c.manifest {
        None => Err(
            "canonical segment for track "@ + decimal(tid as nat)
                + " has no active c2pa manifest"@,
        ),
        Some(m) => match m.cert_chain {
            None => Err(
                "track "@ + decimal(tid as nat) + " manifest carries no signature info"@,
            ),
            Some(chain) => Ok(entry_of(tid, c, m, chain@)),
        },
    }
}

/// The entry of a segment of track `tid` whose check had the outcome `c`.
pub fn judge(tid: u32, c: Checked) -> (r: Result<Json, Error>)
    ensures
        match r {
            Ok(j) => judged(tid, c) == Ok::<JsonView, Seq<char>>(j@),
            Err(e) => judged(tid, c) matches Err(t) && e@ == ErrorView::InvalidMp4(t),
        },
{
    let Checked { manifest, validation_results, validation_state } = c;
    let m = match manifest {
        Some(m) => m,
        None => {
            let mut t = "canonical segment for track ".to_string();
            push_decimal(&mut t, tid as u64);
            t.push_str(" has no active c2pa manifest");
            return Err(Error::InvalidMp4(t));
        },
    };
    let CheckedManifest { manifest, cert_chain } = m;
    let chain = match cert_chain {
        Some(chain) => chain,
        None => {
            let mut t = "track ".to_string();
            push_decimal(&mut t, tid as u64);
            t.push_str(" manifest carries no signature info");
            return Err(Error::InvalidMp4(t));
        },
    };
    let key = match leaf_pubkey_hex(chain.as_str()) {
        Some(k) => Json::Text(k),
        None => Json::Null,
    };
    let ghost chain_text = chain@;
    let mut ms: Vec<Member> = Vec::new();
    assert(members_view(ms@) =~= seq![]);
    push_member(&mut ms, "track_id", Json::Number(number_of(tid as u64)));
    push_member(&mut ms, "manifest", manifest);
    push_member(&mut ms, "cert", Json::Text(chain));
    push_member(&mut ms, "signer_pubkey", key);
    push_member(&mut ms, "validation_results", validation_results);
    push_member(&mut ms, "validation_state", validation_state);
    proof {
        lemma_object_view(ms);
        let want = entry_of(tid, c, c.manifest->Some_0, chain_text)->Object_0;
        assert(members_view(ms@) =~= want);
    }
    Ok(Json::Object(ms))
}

/// Whether `check` judged the segment `seg`, and `j` came of it.
pub open spec fn is_judged<C: Fn(&[u8]) -> Result<Checked, Error>>(
    check: C,
    seg: Segment,
    j: JsonView,
) -> bool {
    exists|c: Checked| #[trigger]
        call_ensures(check, (seg.data,), Ok::<Checked, Error>(c)) && judged(seg.track_id, c)
            == Ok::<JsonView, Seq<char>>(j)
}

/// Whether `check` judged the segment `seg`.
pub open spec fn passes<C: Fn(&[u8]) -> Result<Checked, Error>>(check: C, seg: Segment) -> bool {
    exists|j: JsonView| #[trigger] is_judged(check, seg, j)
}

/// Whether the segment `seg` stops the verification with `e`.
pub open spec fn is_rejected<C: Fn(&[u8]) -> Result<Checked, Error>>(
    check: C,
    seg: Segment,
    e: Error,
) -> bool {
    ||| call_ensures(check, (seg.data,), Err::<Checked, Error>(e))
    ||| exists|c: Checked| #[trigger]
        call_ensures(check, (seg.data,), Ok::<Checked, Error>(c)) && (judged(
            seg.track_id,
            c,
        ) matches Err(t) && e@ == ErrorView::InvalidMp4(t))
}

/// The document of the entries `entries`.
pub open spec fn verdict(entries: Seq<JsonView>) -> JsonView {
    JsonView::Object(seq![MemberView { key: "segments"@, value: JsonView::List(entries) }])
}

/// Verifies every canonical segment of a wrapper, and puts the outcomes together
/// in one JSON document. `decode` reads the catalog out of a segment, and `check`
/// checks it as an asset of its own.
///
/// A signature that does not hold is an outcome, not an error. What cannot be
/// verified at all is an error: no segment, one that cannot be read, or one
/// without a signed manifest.
pub fn verify_segments<
    D: Fn(&[u8]) -> Result<Catalog, Error>,
    C: Fn(&[u8]) -> Result<Checked, Error>,
>(bytes: &[u8], decode: &D, check: &C) -> (r: Result<String, Error>)
    requires
        forall|d: &[u8]| #[trigger] call_requires(*decode, (d,)),
        forall|d: &[u8]| #[trigger] call_requires(*check, (d,)),
    ensures
        match r {
            Ok(text) => splits(bytes@) && exists|segs: Seq<Segment>, entries: Seq<JsonView>|
                {
                    &&& #[trigger] data_of(segs) == wrapped_segments(bytes@)
                    &&& segs.len() > 0
                    &&& entries.len() == segs.len()
                    &&& forall|i: int|
                        0 <= i < segs.len() ==> decoded(*decode, segs[i]) && is_judged(
                            *check,
                            segs[i],
                            #[trigger] entries[i],
                        )
                    &&& text@ == json_text(#[trigger] verdict(entries))
                },
            Err(e) => {
                ||| unwrap_fails(bytes@, *decode, e)
                ||| splits(bytes@) && wrapped_segments(bytes@).len() == 0 && e@
                    == ErrorView::InvalidMp4("no canonical segments to verify"@)
                ||| splits(bytes@) && exists|segs: Seq<Segment>, i: int|
                    {
                        &&& #[trigger] data_of(segs) == wrapped_segments(bytes@)
                        &&& forall|j: int|
                            0 <= j < segs.len() ==> decoded(*decode, #[trigger] segs[j])
                        &&& 0 <= i < segs.len()
                        &&& forall|j: int|
                            0 <= j < i ==> passes(*check, #[trigger] segs[j])
                        &&& #[trigger] is_rejected(*check, segs[i], e)
                    }
            },
        },
{
    let segs = match unwrap(bytes, decode) {
        Ok(s) => s,
        Err(e) => {
            return Err(e);
        },
    };
    let ghost all = segs@.map_values(|s: Segment| s.data@);
    proof {
        assert(data_of(segs@) =~= all);
    }
    if segs.len() == 0 {
        assert(all.len() == 0);
        return Err(invalid_mp4("no canonical segments to verify"));
    }
    let mut out: Vec<Json> = Vec::new();
    let mut i: usize = 0;
    while i < segs.len()
        invariant
            i <= segs@.len(),
            splits(bytes@),
            all == segs@.map_values(|s: Segment| s.data@),
            all == wrapped_segments(bytes@),
            forall|d: &[u8]| #[trigger] call_requires(*check, (d,)),
            data_of(segs@) == wrapped_segments(bytes@),
            forall|j: int| 0 <= j < segs@.len() ==> decoded(*decode, #[trigger] segs@[j]),
            forall|j: int| 0 <= j < i ==> passes(*check, #[trigger] segs@[j]),
            out@.len() == i,
            forall|j: int| 0 <= j < i ==> is_judged(*check, segs@[j], (#[trigger] out@[j])@),
        decreases segs@.len() - i,
    {
        let seg = &segs[i];
        assert(all[i as int] == seg.data@);
        assert(all.contains(seg.data@));
        let checked = match (*check)(seg.data) {
            Ok(c) => c,
            Err(e) => {
                assert(is_rejected(*check, segs@[i as int], e));
                return Err(e);
            },
        };
        let ghost c = checked;
        assert(call_ensures(*check, (seg.data,), Ok::<Checked, Error>(c)));
        match judge(seg.track_id, checked) {
            Err(e) => {
                assert(is_rejected(*check, segs@[i as int], e));
                return Err(e);
            },
            Ok(j) => {
                assert(is_judged(*check, segs@[i as int], j@));
                assert(passes(*check, segs@[i as int]));
                out.push(j);
            },
        }
        i += 1;
    }
    let ghost entries = values_view(out@);
    let mut ms: Vec<Member> = Vec::new();
    assert(members_view(ms@) =~= seq![]);
    proof {
        lemma_list_view(out);
    }
    push_member(&mut ms, "segments", Json::List(out));
    proof {
        lemma_object_view(ms);
        assert(members_view(ms@) =~= seq![
            MemberView { key: "segments"@, value: JsonView::List(entries) },
        ]);
        assert forall|i: int| 0 <= i < segs@.len() implies decoded(
            *decode,
            segs@[i],
        ) && is_judged(*check, segs@[i], #[trigger] entries[i]) by {
            assert(entries[i] == out@[i]@);
        }
        assert(data_of(segs@) == wrapped_segments(bytes@));
    }
    let doc = Json::Object(ms);
    assert(doc@ == verdict(entries));
    Ok(write_json(&doc))
}

} // verus!
