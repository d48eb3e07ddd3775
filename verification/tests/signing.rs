use std::collections::BTreeMap;

use muxl::asset::{
    analyze_signing, check_segment, indent_json, judge_answer, report_asset, report_manifest,
    AssetFacts, IngredientFacts, ManifestFacts, SignatureFacts, Validation, Verification,
};
use muxl::boxes::MUXL_UUID;
use muxl::catalog::{Catalog, VideoConfig};
use muxl::cbor::{SegmenterEvent, SignedEvent};
use muxl::cert::{cert_to_pem, did_key_for, generate_key, issue_cert};
use muxl::encode::hex_lower;
use muxl::error::{invalid_mp4, Error};
use muxl::inspect::{
    build_report, friendly_codec, inspect_to, render_human, short_str, state_report, Analysis,
    InspectOptions, Report, SigningState, Style,
};
use muxl::json::{read_json, write_json, Json, Member};
use muxl::segment::{GopSegment, TrackSamples};
use muxl::sign::{
    host_signature, read_manifest, sign_event, sign_gop_canonical_segments_in_place,
    sign_transcode_segment, stamp, stamp_segment_manifest, transcode_ingredient, SignPath,
    SignerKey, SigningAlg, TranscodeFault,
};
use muxl::verify::{
    action_names, cawg_creator_and_date, judge, subject_common_name, verify_segments, Assertion,
    Checked, CheckedManifest,
};

fn parsed(text: &str) -> serde_json::Value {
    serde_json::from_str(text).unwrap()
}

#[test]
fn stamp_mutates_existing_cawg_metadata() {
    let base = read_json(
        r#"{
            "title": "stream",
            "assertions": [
                { "label": "c2pa.actions", "data": { "actions": [] } },
                { "label": "cawg.metadata", "data": {
                    "@context": { "dc": "http://purl.org/dc/elements/1.1/" },
                    "dc:creator": "did:example", "dc:title": "t",
                    "dc:date": "1970-01-01T00:00:00.000Z"
                }}
            ]
        }"#,
    )
    .unwrap();
    let out = parsed(&stamp_segment_manifest(base, "2020-02-29T00:00:00.000Z"));
    let cawg: Vec<_> = out["assertions"]
        .as_array()
        .unwrap()
        .iter()
        .filter(|a| a["label"] == "cawg.metadata")
        .collect();
    assert_eq!(cawg.len(), 1, "must not duplicate cawg.metadata");
    assert_eq!(cawg[0]["data"]["dc:date"], "2020-02-29T00:00:00.000Z");
    assert_eq!(cawg[0]["data"]["dc:creator"], "did:example");
    assert_eq!(cawg[0]["data"]["dc:title"], "t");
}

#[test]
fn stamp_appends_when_cawg_absent() {
    let base =
        read_json(r#"{ "assertions": [ { "label": "c2pa.actions", "data": {} } ] }"#).unwrap();
    let out = parsed(&stamp_segment_manifest(base, "2001-09-09T01:46:40.000Z"));
    let cawg = out["assertions"]
        .as_array()
        .unwrap()
        .iter()
        .find(|a| a["label"] == "cawg.metadata")
        .expect("a cawg.metadata assertion should have been appended");
    assert_eq!(cawg["data"]["dc:date"], "2001-09-09T01:46:40.000Z");
    assert!(cawg["data"]["@context"]["dc"].is_string());
}

#[test]
fn stamp_creates_assertions_when_missing() {
    let base = read_json(r#"{ "title": "x" }"#).unwrap();
    let out = parsed(&stamp_segment_manifest(base, "1970-01-01T00:00:00.000Z"));
    assert_eq!(out["assertions"].as_array().unwrap().len(), 1);
    assert_eq!(out["assertions"][0]["label"], "cawg.metadata");
}

#[test]
fn stamp_takes_odd_manifests() {
    let text = |base: &str| write_json(&stamp(read_json(base).unwrap(), "W"));
    assert_eq!(text("[1]"), "[1]");
    assert_eq!(
        text(r#"{"assertions":[{"label":"cawg.metadata"}]}"#),
        r#"{"assertions":[{"label":"cawg.metadata","data":{"dc:date":"W"}}]}"#
    );
    assert_eq!(
        text(r#"{"a":1,"assertions":7,"b":2}"#),
        r#"{"a":1,"assertions":[{"label":"cawg.metadata","data":{"@context":{"dc":"http://purl.org/dc/elements/1.1/"},"dc:date":"W"}}],"b":2}"#
    );
    let e = read_manifest("{").err().unwrap();
    assert!(e.starts_with("segment manifest JSON: "), "{e}");
    assert!(read_manifest("{}").is_ok());
    assert_eq!(
        transcode_ingredient(),
        r#"{"title":"source segment","relationship":"parentOf","label":"muxl.source"}"#
    );
}

#[test]
fn signers() {
    let k = SignerKey::from_pem_bytes(vec![1], vec![2], SigningAlg::Es256K);
    assert_eq!(k.path(), SignPath::Es256K);
    let k = SignerKey::from_pem_bytes(vec![1], vec![2], SigningAlg::Ps256)
        .with_tsa_url("http://tsa".to_string());
    assert_eq!(k.path(), SignPath::Keys);
    assert_eq!(k.tsa_url.as_deref(), Some("http://tsa"));
    let k = SignerKey::host_from_pem_bytes(vec![1], SigningAlg::Es256K);
    assert_eq!(k.path(), SignPath::Host);
    assert_eq!(host_signature(vec![1, 2, 3], 2), Ok(vec![1, 2]));
    assert_eq!(
        host_signature(vec![1], u32::MAX),
        Err("host_sign rejected the request".to_string())
    );
    assert_eq!(
        host_signature(vec![1], 2),
        Err("host_sign returned bogus length 2".to_string())
    );
}

fn gop() -> GopSegment {
    let mut s = TrackSamples::new();
    s.push(1000, 3, 0, true, 108);
    GopSegment {
        number: 4,
        tracks: BTreeMap::from([(1, vec![1, 2, 3]), (2, vec![4])]),
        durations: BTreeMap::new(),
        sample_counts: BTreeMap::new(),
        samples: BTreeMap::from([(1, s)]),
        first_decode_times: BTreeMap::new(),
        body_size: 4,
        duration_us: 0,
    }
}

fn sign(data: &[u8]) -> Result<Vec<u8>, Error> {
    let mut out = vec![9, 9];
    out.extend_from_slice(data);
    Ok(out)
}

fn no_inits(_: &Catalog) -> Result<BTreeMap<u32, Vec<u8>>, Error> {
    Err(invalid_mp4("none"))
}

#[test]
fn signing_moves_the_samples() {
    let mut g = gop();
    assert_eq!(sign_gop_canonical_segments_in_place(&mut g, &sign).unwrap(), 2);
    assert_eq!(g.tracks[&2], vec![9, 9, 4]);
    assert_eq!(g.samples[&1].offsets_in_track, vec![110]);
    assert_eq!(g.body_size, 8);
}

#[test]
fn signing_fails_in_words() {
    fn shorter(_: &[u8]) -> Result<Vec<u8>, Error> {
        Ok(vec![])
    }
    fn drifting(data: &[u8]) -> Result<Vec<u8>, Error> {
        let mut out = vec![0; data.len()];
        out.extend_from_slice(data);
        Ok(out)
    }
    let mut g = gop();
    let e = sign_gop_canonical_segments_in_place(&mut g, &shorter).unwrap_err();
    assert_eq!(e.message(), "signed canonical segment shorter than unsigned");
    let e = sign_gop_canonical_segments_in_place(&mut g, &drifting).unwrap_err();
    assert_eq!(
        e.message(),
        "per-segment c2pa-uuid size drift across tracks: expected 3, got 1 for track 2"
    );
    assert_eq!(g.tracks, gop().tracks);
}

#[test]
fn events_are_signed_after_an_init() {
    let mut seen = false;
    let e = sign_event(SegmenterEvent::Segment(gop()), &mut seen, &no_inits, &sign).unwrap_err();
    assert_eq!(e.message(), "segment received before init segment");
    assert!(!seen);
    let init = SegmenterEvent::InitSegment { catalog: Catalog::default(), data: vec![1] };
    let out = sign_event(init, &mut seen, &no_inits, &sign).unwrap();
    assert!(seen && out.line.is_none());
    assert!(matches!(out.event, SignedEvent::Init { data, .. } if data == vec![1]));
    let out = sign_event(SegmenterEvent::Segment(gop()), &mut seen, &no_inits, &sign).unwrap();
    assert_eq!(
        out.line.as_deref(),
        Some("signed segment 4: 2 canonical segments, 8 bytes (c2pa prefix 2 bytes/track)")
    );
    match out.event {
        SignedEvent::SignedSegment { tracks, body_size, .. } => {
            assert_eq!(tracks.get("1").unwrap().0, vec![9, 9, 1, 2, 3]);
            assert_eq!(body_size, 8);
        }
        _ => panic!("no segment"),
    }
}

fn catalog() -> Catalog {
    catalog_of(1)
}

fn catalog_of(track_id: u32) -> Catalog {
    let mut c = Catalog::default();
    c.insert_video(
        "v".into(),
        VideoConfig {
            codec: "avc1.64001f".to_string(),
            coded_width: 1280,
            coded_height: 720,
            framerate: Some("29.97".to_string()),
            display_aspect_width: Some(16),
            display_aspect_height: Some(9),
            bitrate: Some(1000),
            description: vec![1, 2, 3],
            track_id,
            timescale: 30_000,
        },
    );
    c
}

fn decode(_: &[u8]) -> Result<Catalog, Error> {
    Ok(catalog())
}

fn segment() -> Vec<u8> {
    let mut out = vec![0, 0, 0, 24];
    out.extend_from_slice(b"uuid");
    out.extend_from_slice(&MUXL_UUID);
    out
}

#[test]
fn verify_rejects_garbage() {
    let r = verify_segments(b"not an mp4 at all", &decode, &check_segment);
    assert!(r.is_err(), "verify must reject input with no canonical segments");
    // A segment without a manifest store cannot be read as an asset.
    assert!(verify_segments(&segment(), &decode, &check_segment).is_err());
}

fn checked(manifest: Option<CheckedManifest>) -> Checked {
    Checked {
        manifest,
        validation_results: Json::Null,
        validation_state: Json::Text("Valid".to_string()),
    }
}

#[test]
fn verdicts() {
    fn check(_: &[u8]) -> Result<Checked, Error> {
        let manifest =
            CheckedManifest { manifest: Json::Bool(true), cert_chain: Some("no pem".into()) };
        Ok(checked(Some(manifest)))
    }
    assert_eq!(
        verify_segments(&segment(), &decode, &check).unwrap(),
        r#"{"segments":[{"track_id":1,"manifest":true,"cert":"no pem","signer_pubkey":null,"validation_results":null,"validation_state":"Valid"}]}"#
    );
    assert_eq!(
        judge(3, checked(None)).err().unwrap().message(),
        "canonical segment for track 3 has no active c2pa manifest"
    );
    let unsigned = CheckedManifest { manifest: Json::Null, cert_chain: None };
    assert_eq!(
        judge(3, checked(Some(unsigned))).err().unwrap().message(),
        "track 3 manifest carries no signature info"
    );
    let e = verify_segments(b"", &decode, &check).unwrap_err();
    assert!(!e.message().is_empty());
}

#[test]
fn the_first_rejected_segment_is_told_of() {
    fn decode_by_size(data: &[u8]) -> Result<Catalog, Error> {
        if data.len() > 26 {
            return Err(invalid_mp4("not decoded"));
        }
        Ok(catalog_of(data.len() as u32))
    }
    fn check(data: &[u8]) -> Result<Checked, Error> {
        let manifest =
            CheckedManifest { manifest: Json::Bool(true), cert_chain: Some("no pem".into()) };
        Ok(checked(if data.len() == 24 { Some(manifest) } else { None }))
    }
    let sized = |n: u8| {
        let mut out = vec![0, 0, 0, 24 + n];
        out.extend_from_slice(b"uuid");
        out.extend_from_slice(&MUXL_UUID);
        out.extend_from_slice(&vec![0; n as usize]);
        out
    };
    let e = verify_segments(&[sized(0), sized(1), sized(2)].concat(), &decode_by_size, &check);
    assert_eq!(
        e.unwrap_err().message(),
        "canonical segment for track 25 has no active c2pa manifest"
    );
    let e = verify_segments(&[sized(1), sized(3)].concat(), &decode_by_size, &check);
    assert_eq!(e.unwrap_err().message(), invalid_mp4("not decoded").message());
}

#[test]
fn a_transcoded_segment_names_its_source() {
    let manifest = r#"{"title":"t","assertions":[]}"#;
    let sign = |text: &str, ingredient: &str, source: &[u8], output: &[u8]| {
        let told = parsed(text);
        assert_eq!(told["title"], "t");
        assert_eq!(told["assertions"][0]["label"], "cawg.metadata");
        let date = told["assertions"][0]["data"]["dc:date"].as_str().unwrap().to_string();
        assert_eq!(date.len(), "1970-01-01T00:00:00.000Z".len());
        assert_eq!(ingredient, transcode_ingredient());
        if source.is_empty() {
            return Err("no source");
        }
        Ok([source, output].concat())
    };
    assert_eq!(sign_transcode_segment(b"out", b"src", manifest, &sign).unwrap(), b"srcout");
    match sign_transcode_segment(b"out", b"", manifest, &sign) {
        Err(TranscodeFault::Sign(e)) => assert_eq!(e, "no source"),
        _ => panic!("not refused"),
    }
    match sign_transcode_segment(b"out", b"src", "{", &sign) {
        Err(TranscodeFault::Manifest(e)) => assert_eq!(Some(e), read_manifest("{").err()),
        _ => panic!("not refused"),
    }
}

fn assertion(label: &str, value: &str) -> Assertion {
    Assertion { label: label.to_string(), value: read_json(value).ok() }
}

#[test]
fn assertions_are_read() {
    let list = vec![
        assertion("c2pa.actions", r#"{"actions":[{"action":"a"},{"x":1},{"action":"b"}]}"#),
        assertion("other", r#"{"actions":[{"action":"no"}]}"#),
        assertion("c2pa.actions.v2", r#"{"actions":[{"action":"c"}]}"#),
        assertion("cawg.metadata", r#"{"dc:creator":"me","dc:date":7}"#),
        assertion("cawg.metadata", r#"{"dc:date":"late"}"#),
    ];
    assert_eq!(action_names(&list), vec!["a", "b", "c"]);
    let c = cawg_creator_and_date(&list).unwrap();
    assert_eq!((c.creator.as_deref(), c.date), (Some("me"), None));
    assert!(cawg_creator_and_date(&list[..3]).is_none());
    assert_eq!(subject_common_name("O=x, CN=did:key:z,O=y"), "did:key:z");
    assert_eq!(subject_common_name("O=x"), "O=x");
}

fn manifest() -> ManifestFacts {
    let key = generate_key();
    let der = issue_cert(&key, None, None, &vec![1; 20], 0).unwrap();
    ManifestFacts {
        title: Some("t".to_string()),
        signature: Some(SignatureFacts {
            alg: Some("Es256K".to_string()),
            time: None,
            cert_chain: cert_to_pem(&der),
        }),
        assertions: vec![assertion("c2pa.actions", r#"{"actions":[{"action":"c2pa.created"}]}"#)],
        ingredients: vec![
            IngredientFacts { relationship: "ParentOf".into(), title: None, hash: Some("".into()) },
            IngredientFacts {
                relationship: "ComponentOf".into(),
                title: Some("x".into()),
                hash: Some("h".into()),
            },
        ],
    }
}

#[test]
fn assets_are_reported() {
    let r = report_manifest(Validation::Invalid, vec!["code".to_string()], manifest());
    assert_eq!(r.state, SigningState::Invalid);
    assert_eq!(r.failure_codes, vec!["code"]);
    assert!(r.signer.unwrap().starts_with("did:key:z"));
    assert_eq!(r.pubkey.unwrap().len(), 130);
    assert_eq!(r.actions, vec!["c2pa.created"]);
    assert_eq!(r.ingredients[0].title, "(untitled)");
    assert_eq!(r.ingredients[0].hash, None);
    assert_eq!(r.ingredients[1].hash.as_deref(), Some("h"));

    let r = report_manifest(Validation::Valid, vec!["code".to_string()], manifest());
    assert!(r.failure_codes.is_empty());
    assert_eq!(report_asset(None).state, SigningState::Unsigned);
    let facts =
        AssetFacts { validation: Validation::Trusted, failure_codes: vec![], manifest: None };
    assert_eq!(report_asset(Some(facts)).state, SigningState::NoActiveManifest);
}

#[test]
fn a_segment_without_a_store_is_unsigned() {
    let a = analyze_signing(&segment(), true);
    assert_eq!(a.signing.state, SigningState::Unsigned);
    assert_eq!(a.manifests, None);
    assert!(check_segment(&segment()).is_err());
}

#[test]
fn answers_are_judged() {
    let e = judge_answer(Err("no store".to_string())).err().unwrap();
    assert!(matches!(e, Error::Io(_)));
    assert_eq!(e.message(), "no store");

    let signature = SignatureFacts { alg: None, time: None, cert_chain: "chain".to_string() };
    let c = judge_answer(Ok(Verification {
        manifest: Some(Json::Text("m".to_string())),
        signature: Some(signature),
        results: None,
        state: Some(Json::Text("Valid".to_string())),
    }))
    .ok()
    .unwrap();
    let m = c.manifest.unwrap();
    assert_eq!(write_json(&m.manifest), "\"m\"");
    assert_eq!(m.cert_chain.as_deref(), Some("chain"));
    assert_eq!(write_json(&c.validation_results), "null");
    assert_eq!(write_json(&c.validation_state), "\"Valid\"");

    let bare = Verification { manifest: None, signature: None, results: None, state: None };
    assert!(judge_answer(Ok(bare)).ok().unwrap().manifest.is_none());
}

fn unsigned(_: &[u8], _: bool) -> Analysis {
    Analysis { signing: state_report(SigningState::Unsigned), manifests: None }
}

fn signed(_: &[u8], want: bool) -> Analysis {
    Analysis {
        signing: report_manifest(Validation::Valid, vec![], manifest()),
        manifests: if want { Some("{\n  \"a\": 1\n}".to_string()) } else { None },
    }
}

fn as_json(r: &Report) -> Result<String, Error> {
    Ok(format!("{{\"file\":\"{}\",\"segments\":{}}}", r.file, r.segment_count))
}

#[test]
fn wrappers_are_inspected() {
    let opts = InspectOptions { json: false, manifests: false };
    let text =
        inspect_to(&segment(), "a.m4s", false, opts, &decode, &unsigned, &as_json).unwrap();
    assert_eq!(
        text,
        "file: a.m4s (24 bytes, 1 segments)\n\n── segment 1/1 ── track 1 · 24 bytes\n  video: avc1.64001f (H.264 / AVC)\n  dims:   1280×720 @ 29.97 fps\n  dar:    16:9\n  rate:   1000 bps\n  cmaf:   timescale 30000, 3 desc bytes\n  sign:   (unsigned)\n"
    );
    let colored =
        inspect_to(&segment(), "a.m4s", true, opts, &decode, &unsigned, &as_json).unwrap();
    assert!(colored.contains("\x1b[2m(unsigned)\x1b[0m"));
    let json = InspectOptions { json: true, manifests: false };
    let text =
        inspect_to(&segment(), "a.m4s", false, json, &decode, &unsigned, &as_json).unwrap();
    assert!(text.starts_with("{\"file\":\"a.m4s\",\"segments\":1}"), "{text}");
}

#[test]
fn inspect_human_renders_signed_block_and_manifest_dump() {
    let opts = InspectOptions { json: false, manifests: true };
    let text =
        inspect_to(&segment(), "signed.m4s", false, opts, &decode, &signed, &as_json).unwrap();
    assert!(text.contains("── segment 1/"), "prints per-segment headers");
    assert!(text.contains("video:"), "prints the codec block");
    assert!(
        text.contains("✓ valid") || text.contains("✓ trusted"),
        "prints a validation badge for the signed segment"
    );
    assert!(text.contains("signer:"), "prints the signer DID line");
    assert!(text.contains("manifest store:"), "prints the manifest dump header");
}

#[test]
fn reports_hold_what_was_found() {
    let opts = InspectOptions { json: true, manifests: true };
    let r = build_report(&segment(), "f", opts, &decode, &signed).unwrap();
    assert_eq!((r.segment_count, r.bytes), (1, 24));
    let s = &r.segments[0];
    assert_eq!(s.video[0].friendly.as_deref(), Some("H.264 / AVC"));
    assert_eq!(s.signing.pubkey.as_ref().unwrap().len(), 130);
    assert!(s.signing.pubkey.as_ref().unwrap().starts_with("04"));
    assert!(s.manifests.is_some());
    let empty = Report { file: "f".into(), bytes: 0, segment_count: 0, segments: vec![] };
    assert_eq!(
        render_human(&empty, &Style { color: false }),
        "file: f (0 bytes, 0 segments)\n  no canonical segments found\n"
    );
}

#[test]
fn names_and_short_forms() {
    assert_eq!(friendly_codec("AVC1.42E01E").as_deref(), Some("H.264 / AVC"));
    assert_eq!(friendly_codec("vp9").as_deref(), Some("VP9"));
    assert_eq!(friendly_codec("mp4a.40.2").as_deref(), Some("AAC"));
    assert_eq!(friendly_codec("unknown"), None);
    assert_eq!(short_str("123456789012345678901234"), "123456789012345678901234");
    assert_eq!(short_str("1234567890123456789012345"), "1234567890123456…2345");
    // It is the bytes that count.
    assert_eq!(short_str(&"é".repeat(12)), "é".repeat(12));
    assert_eq!(short_str(&"é".repeat(20)), format!("{}…{}", "é".repeat(8), "é".repeat(2)));
    let key = generate_key();
    assert!(did_key_for(&key.public_key()).len() > 50);
    assert_eq!(hex_lower(&[255]), "ff");
}

#[test]
fn json_round_trips() {
    let text = r#"{"b":[1,2.5,null,true],"a":"x"}"#;
    let j = read_json(text).unwrap();
    assert_eq!(write_json(&j), text);
    assert!(read_json("[1,").is_err());
    let made = Json::Object(vec![Member { key: "k".into(), value: Json::Text("\"".into()) }]);
    assert_eq!(write_json(&made), r#"{"k":"\""}"#);
}

#[test]
fn documents_are_indented() {
    assert_eq!(indent_json("{\"a\":[1,true]}").unwrap(), "{\n  \"a\": [\n    1,\n    true\n  ]\n}");
    assert!(indent_json("junk").is_none());
}
