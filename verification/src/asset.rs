//! Signed assets: what the reader of a segment's manifest store finds in it.
//!
//! Whether a signature holds depends on the time and on the settings of the
//! reader, so nothing is promised of what it finds. What is reported of it is
//! decided here.

use std::io::Cursor;
use vstd::prelude::*;

use crate::error::{Error, ErrorView, IoError, IoKind};
use crate::inspect::{
    state_report, text_opt, Analysis, IngredientReport, SigningReport, SigningState,
};
use crate::json::{json_of, parsed_json, pretty_json, read_json, write_pretty, Json};
use crate::keymap::texts;
use crate::text::same_text;
use crate::verify::{
    action_names, all_names, cawg_creator_and_date, common_name, credited, has_content, leaf_key_text,
    leaf_pubkey_hex, leaf_subject, leaf_subject_cn, Assertion, Checked, CheckedManifest,
};

verus! {

/// A reader of a manifest store.
#[verifier::external_type_specification]
#[verifier::external_body]
pub struct ExReader(c2pa::Reader);

/// Whether the signature of an asset holds.
#[derive(Clone, Copy, Debug, PartialEq, Eq, Structural)]
pub enum Validation {
    Trusted,
    Valid,
    Invalid,
}

/// The signature of a manifest.
#[derive(Debug)]
pub struct SignatureFacts {
    pub alg: Option<String>,
    pub time: Option<String>,
    /// The certificate chain in PEM.
    pub cert_chain: String,
}

/// Something that an asset was made of.
#[derive(Debug)]
pub struct IngredientFacts {
    pub relationship: String,
    pub title: Option<String>,
    pub hash: Option<String>,
}

/// The active manifest of an asset.
pub struct ManifestFacts {
    pub title: Option<String>,
    pub signature: Option<SignatureFacts>,
    pub assertions: Vec<Assertion>,
    pub ingredients: Vec<IngredientFacts>,
}

/// What the reader of an asset finds in it.
pub struct AssetFacts {
    pub validation: Validation,
    pub failure_codes: Vec<String>,
    /// None where no manifest is active.
    pub manifest: Option<ManifestFacts>,
}

/// Calls `c2pa::Reader::from_stream` on the bytes. Nothing is promised of the
/// reader: it depends on the time and on the settings of the thread.
#[verifier::external_body]
fn open_reader(format: &str, data: &[u8]) -> (r: Result<c2pa::Reader, String>) {
    c2pa::Reader::from_stream(format, Cursor::new(data)).map_err(|e| e.to_string())
}

/// Calls `c2pa::Reader::validation_state`.
#[verifier::external_body]
fn validation_of(reader: &c2pa::Reader) -> (r: Validation) {
    match reader.validation_state() {
        c2pa::ValidationState::Trusted => Validation::Trusted,
        c2pa::ValidationState::Valid => Validation::Valid,
        c2pa::ValidationState::Invalid => Validation::Invalid,
    }
}

/// Calls `c2pa::Reader::validation_results`, and hands out the failure codes of the
/// active manifest.
#[verifier::external_body]
fn failure_codes_of(reader: &c2pa::Reader) -> (r: Vec<String>) {
    let codes = reader.validation_results().and_then(|v| v.active_manifest());
    codes.map(|c| c.failure.iter().map(|f| f.code().to_string()).collect()).unwrap_or_default()
}

/// Calls `c2pa::Reader::active_manifest`, and hands out its title; none where no
/// manifest is active.
#[verifier::external_body]
fn title_of(reader: &c2pa::Reader) -> (r: Option<Option<String>>) {
    reader.active_manifest().map(|m| m.title().map(String::from))
}

/// Calls `c2pa::Reader::active_manifest`, and hands out its signature.
#[verifier::external_body]
fn signature_of(reader: &c2pa::Reader) -> (r: Option<SignatureFacts>) {
    let signature = reader.active_manifest().and_then(|m| m.signature_info());
    signature.map(|s| SignatureFacts {
        alg: s.alg.map(|a| format!("{a:?}")),
        time: s.time.clone(),
        cert_chain: s.cert_chain().to_string(),
    })
}

/// Calls `c2pa::Reader::active_manifest`, and hands out its assertions.
#[verifier::external_body]
fn assertions_of(reader: &c2pa::Reader) -> (r: Vec<Assertion>) {
    let list = reader.active_manifest().map(|m| m.assertions()).unwrap_or_default();
    list.iter().map(|a| Assertion {
        label: a.label().to_string(),
        value: a.value().ok().map(|v| json_of(v.clone())),
    }).collect()
}

/// Calls `c2pa::Reader::active_manifest`, and hands out its ingredients.
#[verifier::external_body]
fn ingredients_of(reader: &c2pa::Reader) -> (r: Vec<IngredientFacts>) {
    let list = reader.active_manifest().map(|m| m.ingredients()).unwrap_or_default();
    list.iter().map(|i| IngredientFacts {
        relationship: format!("{:?}", i.relationship()),
        title: i.title().map(String::from),
        hash: i.hash().map(String::from),
    }).collect()
}

/// Calls `c2pa::Reader::json`, the manifest store as a JSON text.
#[verifier::external_body]
fn store_text_of(reader: &c2pa::Reader) -> (r: String) {
    reader.json()
}

/// Calls `serde_json::to_value` on the active manifest.
#[verifier::external_body]
fn manifest_json_of(reader: &c2pa::Reader) -> (r: Option<Json>) {
    reader.active_manifest().and_then(|m| serde_json::to_value(m).ok()).map(json_of)
}

/// Calls `serde_json::to_value` on the validation results.
#[verifier::external_body]
fn results_json_of(reader: &c2pa::Reader) -> (r: Option<Json>) {
    serde_json::to_value(reader.validation_results()).ok().map(json_of)
}

/// Calls `serde_json::to_value` on the validation state.
#[verifier::external_body]
fn state_json_of(reader: &c2pa::Reader) -> (r: Option<Json>) {
    serde_json::to_value(reader.validation_state()).ok().map(json_of)
}

/// The JSON document in a text, indented; none where it holds none.
pub open spec fn indented_json(text: Seq<char>) -> Option<Seq<char>> {
    match parsed_json(text) {
        Ok(j) => pretty_json(j),
        Err(_) => None,
    }
}

/// The JSON document in a text, indented; none where it holds none.
pub fn indent_json(text: &str) -> (r: Option<String>)
    ensures
        match r {
            Some(t) => indented_json(text@) == Some(t@),
            None => indented_json(text@) is None,
        },
{
    match read_json(text) {
        Ok(j) => write_pretty(&j),
        Err(_) => None,
    }
}

/// The name of the signer that a chain's first certificate gives.
pub open spec fn signer_name(chain: Seq<char>) -> Option<Seq<char>> {
    if !has_content(chain) {
        None
    } else {
        match leaf_subject(chain) {
            Some(subject) => Some(common_name(subject)),
            None => None,
        }
    }
}

/// Whether `r` reports the ingredient `i`: one without a title as untitled, and an
/// empty hash not at all.
pub open spec fn reports_ingredient(i: IngredientFacts, r: IngredientReport) -> bool {
    &&& r.relationship == i.relationship
    &&& r.title@ == match i.title {
        Some(t) => t@,
        None => "(untitled)"@,
    }
    &&& text_opt(r.hash) == match i.hash {
        Some(h) => if h@ == ""@ {
            None
        } else {
            Some(h@)
        },
        None => None,
    }
}

/// The state that a validation is reported as.
pub open spec fn state_of(v: Validation) -> SigningState {
    match v {
        Validation::Trusted => SigningState::Trusted,
        Validation::Valid => SigningState::Valid,
        Validation::Invalid => SigningState::Invalid,
    }
}

/// Whether `r` reports the manifest `m` of an asset. The codes are those of a
/// signature that does not hold.
pub open spec fn reports_manifest(
    v: Validation,
    codes: Seq<String>,
    m: ManifestFacts,
    r: SigningReport,
) -> bool {
    &&& r.state == state_of(v)
    &&& r.failure_codes@ == if v == Validation::Invalid {
        codes
    } else {
        Seq::empty()
    }
    &&& r.title == m.title
    &&& match m.signature {
        Some(s) => {
            &&& r.alg == s.alg
            &&& r.when == s.time
            &&& text_opt(r.signer) == signer_name(s.cert_chain@)
            &&& text_opt(r.pubkey) == leaf_key_text(s.cert_chain@)
        },
        None => r.alg is None && r.when is None && r.signer is None && r.pubkey is None,
    }
    &&& text_opt(r.dc_creator) == credited(m.assertions@).0
    &&& text_opt(r.dc_date) == credited(m.assertions@).1
    &&& texts(r.actions@) == all_names(m.assertions@, m.assertions@.len() as int)
    &&& r.ingredients@.len() == m.ingredients@.len()
    &&& forall|i: int|
        0 <= i < m.ingredients@.len() ==> reports_ingredient(
            m.ingredients@[i],
            #[trigger] r.ingredients@[i],
        )
}

fn report_ingredient(i: IngredientFacts) -> (r: IngredientReport)
    ensures
        reports_ingredient(i, r),
{
    let title = match i.title {
        Some(t) => t,
        None => "(untitled)".to_string(),
    };
    let hash = match i.hash {
        Some(h) => if same_text(h.as_str(), "") {
            None
        } else {
            Some(h)
        },
        None => None,
    };
    IngredientReport { relationship: i.relationship, title, hash }
}

fn report_ingredients(list: Vec<IngredientFacts>) -> (r: Vec<IngredientReport>)
    ensures
        r@.len() == list@.len(),
        forall|i: int|
            0 <= i < list@.len() ==> reports_ingredient(list@[i], #[trigger] r@[i]),
{
    let ghost all = list@;
    let mut rest = list;
    let mut out: Vec<IngredientReport> = Vec::new();
    while rest.len() > 0
        invariant
            rest@.len() + out@.len() == all.len(),
            rest@ == all.skip(out@.len() as int),
            forall|i: int|
                0 <= i < out@.len() ==> reports_ingredient(all[i], #[trigger] out@[i]),
        decreases rest@.len(),
    {
        let ghost at = out@.len();
        let first = rest.remove(0);
        assert(first == all[at as int]);
        out.push(report_ingredient(first));
        assert(rest@ =~= all.skip(out@.len() as int));
    }
    out
}

/// The report of the active manifest of an asset.
pub fn report_manifest(validation: Validation, failure_codes: Vec<String>, m: ManifestFacts) -> (r:
    SigningReport)
    ensures
        reports_manifest(validation, failure_codes@, m, r),
{
    let state = match validation {
        Validation::Trusted => SigningState::Trusted,
        Validation::Valid => SigningState::Valid,
        Validation::Invalid => SigningState::Invalid,
    };
    let failure_codes = match validation {
        Validation::Invalid => failure_codes,
        _ => Vec::new(),
    };
    let (dc_creator, dc_date) = match cawg_creator_and_date(m.assertions.as_slice()) {
        Some(c) => (c.creator, c.date),
        None => (None, None),
    };
    let actions = action_names(m.assertions.as_slice());
    let (alg, when, signer, pubkey) = match m.signature {
        Some(s) => {
            let signer = leaf_subject_cn(s.cert_chain.as_str());
            let pubkey = leaf_pubkey_hex(s.cert_chain.as_str());
            (s.alg, s.time, signer, pubkey)
        },
        None => (None, None, None, None),
    };
    let ingredients = report_ingredients(m.ingredients);
    SigningReport {
        state,
        failure_codes,
        title: m.title,
        alg,
        when,
        signer,
        pubkey,
        dc_creator,
        dc_date,
        actions,
        ingredients,
    }
}

/// Whether `r` reports nothing but the state.
pub open spec fn reports_state(state: SigningState, r: SigningReport) -> bool {
    &&& r.state == state
    &&& r.failure_codes@.len() == 0 && r.actions@.len() == 0 && r.ingredients@.len() == 0
    &&& r.title is None && r.alg is None && r.when is None && r.signer is None
    &&& r.pubkey is None && r.dc_creator is None && r.dc_date is None
}

/// Whether `r` reports an asset: as unsigned where it has no manifest store, and as
/// one without an active manifest where that is so.
pub open spec fn reports_asset(facts: Option<AssetFacts>, r: SigningReport) -> bool {
    match facts {
        None => reports_state(SigningState::Unsigned, r),
        Some(f) => match f.manifest {
            None => reports_state(SigningState::NoActiveManifest, r),
            Some(m) => reports_manifest(f.validation, f.failure_codes@, m, r),
        },
    }
}

/// The report of an asset, none standing for one without a manifest store.
pub fn report_asset(facts: Option<AssetFacts>) -> (r: SigningReport)
    ensures
        reports_asset(facts, r),
{
    match facts {
        None => state_report(SigningState::Unsigned),
        Some(f) => match f.manifest {
            None => state_report(SigningState::NoActiveManifest),
            Some(m) => report_manifest(f.validation, f.failure_codes, m),
        },
    }
}

/// Whether `f` is made of what the reader answered: its title tells whether a
/// manifest is active, and every fact of that manifest is an answer of its own.
spec fn answered(reader: &c2pa::Reader, f: AssetFacts) -> bool {
    &&& call_ensures(validation_of, (reader,), f.validation)
    &&& call_ensures(failure_codes_of, (reader,), f.failure_codes)
    &&& match f.manifest {
        Some(m) => {
            &&& call_ensures(title_of, (reader,), Some(m.title))
            &&& call_ensures(signature_of, (reader,), m.signature)
            &&& call_ensures(assertions_of, (reader,), m.assertions)
            &&& call_ensures(ingredients_of, (reader,), m.ingredients)
        },
        None => call_ensures(title_of, (reader,), None::<Option<String>>),
    }
}

/// Asks the reader for all that is reported of an asset.
fn facts_of(reader: &c2pa::Reader) -> (r: AssetFacts)
    ensures
        answered(reader, r),
{
    let manifest = match title_of(reader) {
        Some(title) => Some(
            ManifestFacts {
                title,
                signature: signature_of(reader),
                assertions: assertions_of(reader),
                ingredients: ingredients_of(reader),
            },
        ),
        None => None,
    };
    AssetFacts {
        validation: validation_of(reader),
        failure_codes: failure_codes_of(reader),
        manifest,
    }
}

/// What the reader of a segment answers to its analysis.
pub struct Reading {
    pub facts: AssetFacts,
    /// The manifest store as a JSON text, where that was asked for.
    pub store: Option<String>,
}

/// Whether the reader answered the analysis of the segment `data` with `a`: with
/// nothing where it cannot read the segment as an asset, and else with its own
/// answers. Only where `want_manifests` holds was it asked for the manifest store.
pub closed spec fn analyzed_as(data: &[u8], want_manifests: bool, a: Option<Reading>) -> bool {
    exists|opened: Result<c2pa::Reader, String>|
        {
            &&& #[trigger] call_ensures(open_reader, ("m4s", data), opened)
            &&& match (opened, a) {
                (Ok(reader), Some(x)) => {
                    &&& answered(&reader, x.facts)
                    &&& match x.store {
                        Some(t) => want_manifests && call_ensures(store_text_of, (&reader,), t),
                        None => !want_manifests,
                    }
                },
                (Err(_), None) => true,
                _ => false,
            }
        }
}

/// Whether `r` reports what the reader of a segment answered: an unsigned asset where
/// it answered nothing, and else its answers, with the manifest store indented.
pub open spec fn reports_reading(a: Option<Reading>, r: Analysis) -> bool {
    match a {
        None => reports_state(SigningState::Unsigned, r.signing) && r.manifests is None,
        Some(x) => {
            &&& reports_asset(Some(x.facts), r.signing)
            &&& match x.store {
                None => r.manifests is None,
                Some(t) => match r.manifests {
                    Some(m) => indented_json(t@) == Some(m@),
                    None => indented_json(t@) is None,
                },
            }
        },
    }
}

/// The report of what the reader of a segment answered.
pub fn report_reading(a: Option<Reading>) -> (r: Analysis)
    ensures
        reports_reading(a, r),
{
    match a {
        None => Analysis { signing: report_asset(None), manifests: None },
        Some(x) => {
            let manifests = match &x.store {
                Some(t) => indent_json(t.as_str()),
                None => None,
            };
            Analysis { signing: report_asset(Some(x.facts)), manifests }
        },
    }
}

/// Asks the reader of a segment for all that its analysis reports.
fn read_segment(seg_bytes: &[u8], want_manifests: bool) -> (r: Option<Reading>)
    ensures
        analyzed_as(seg_bytes, want_manifests, r),
{
    let opened = open_reader("m4s", seg_bytes);
    assert(call_ensures(open_reader, ("m4s", seg_bytes), opened));
    match opened {
        Err(_) => None,
        Ok(reader) => {
            let store = if want_manifests {
                Some(store_text_of(&reader))
            } else {
                None
            };
            let facts = facts_of(&reader);
            Some(Reading { facts, store })
        },
    }
}

/// Reads a segment as an asset of its own and reports its signature, with the
/// manifest store as indented JSON where that is wanted. A segment without a
/// manifest store is reported as unsigned.
pub fn analyze_signing(seg_bytes: &[u8], want_manifests: bool) -> (r: Analysis)
    ensures
        exists|a: Option<Reading>| #[trigger]
            analyzed_as(seg_bytes, want_manifests, a) && reports_reading(a, r),
        !want_manifests ==> r.manifests is None,
{
    let a = read_segment(seg_bytes, want_manifests);
    report_reading(a)
}

/// A reader's answer as JSON, null where it has none.
fn or_null(j: Option<Json>) -> (r: Json)
    ensures
        match j {
            Some(v) => r == v,
            None => r == Json::Null,
        },
{
    match j {
        Some(v) => v,
        None => Json::Null,
    }
}

/// What the reader of a segment answers to its verification.
pub struct Verification {
    /// None where no manifest is active.
    pub manifest: Option<Json>,
    /// None where the manifest has no signature.
    pub signature: Option<SignatureFacts>,
    pub results: Option<Json>,
    pub state: Option<Json>,
}

/// Whether the verification of the segment `data` was answered with `v`: with the
/// words of the reader where it cannot read the segment as an asset, and else with
/// its own answers.
pub closed spec fn verified_as(data: &[u8], v: Result<Verification, String>) -> bool {
    exists|opened: Result<c2pa::Reader, String>|
        {
            &&& #[trigger] call_ensures(open_reader, ("m4s", data), opened)
            &&& match (opened, v) {
                (Ok(reader), Ok(a)) => {
                    &&& call_ensures(manifest_json_of, (&reader,), a.manifest)
                    &&& call_ensures(signature_of, (&reader,), a.signature)
                    &&& call_ensures(results_json_of, (&reader,), a.results)
                    &&& call_ensures(state_json_of, (&reader,), a.state)
                },
                (Err(e), Err(message)) => e == message,
                _ => false,
            }
        }
}

/// The answer `j`, null where there is none.
pub open spec fn null_for_none(j: Option<Json>) -> Json {
    match j {
        Some(v) => v,
        None => Json::Null,
    }
}

/// Whether `r` is what the answer `v` comes to: the manifest with the certificate
/// chain of its signature, and the findings; or the words of the reader.
pub open spec fn comes_to(v: Result<Verification, String>, r: Result<Checked, Error>) -> bool {
    match v {
        Err(message) => r matches Err(e) && e@ == ErrorView::Io(IoKind::Other, message@),
        Ok(a) => {
            &&& r matches Ok(c)
            &&& c.manifest == match a.manifest {
                Some(manifest) => Some(
                    CheckedManifest {
                        manifest,
                        cert_chain: match a.signature {
                            Some(s) => Some(s.cert_chain),
                            None => None,
                        },
                    },
                ),
                None => None,
            }
            &&& c.validation_results == null_for_none(a.results)
            &&& c.validation_state == null_for_none(a.state)
        },
    }
}

/// What the answer to the verification of a segment comes to.
pub fn judge_answer(v: Result<Verification, String>) -> (r: Result<Checked, Error>)
    ensures
        comes_to(v, r),
{
    let a = match v {
        Ok(a) => a,
        Err(message) => return Err(Error::Io(IoError { kind: IoKind::Other, message })),
    };
    let manifest = match a.manifest {
        Some(manifest) => {
            let cert_chain = match a.signature {
                Some(s) => Some(s.cert_chain),
                None => None,
            };
            Some(CheckedManifest { manifest, cert_chain })
        },
        None => None,
    };
    Ok(
        Checked {
            manifest,
            validation_results: or_null(a.results),
            validation_state: or_null(a.state),
        },
    )
}

/// Reads a segment as an asset of its own, and hands out what its verification came
/// to. One that cannot be read at all is an error, in the words of the reader.
pub fn check_segment(data: &[u8]) -> (r: Result<Checked, Error>)
    ensures
        exists|v: Result<Verification, String>| #[trigger] verified_as(data, v) && comes_to(v, r),
{
    let opened = open_reader("m4s", data);
    let ghost was = opened;
    let v = match opened {
        Err(message) => Err(message),
        Ok(reader) => Ok(
            Verification {
                manifest: manifest_json_of(&reader),
                signature: signature_of(&reader),
                results: results_json_of(&reader),
                state: state_json_of(&reader),
            },
        ),
    };
    proof {
        assert(call_ensures(open_reader, ("m4s", data), was));
        assert(verified_as(data, v));
    }
    judge_answer(v)
}

} // verus!
