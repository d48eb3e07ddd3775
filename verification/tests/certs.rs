use der::{Decode, Encode};
use k256::ecdsa::signature::Verifier;
use k256::pkcs8::DecodePrivateKey;
use x509_cert::Certificate;

use muxl::cert::{
    build_tbs, can_be_named, cert_to_pem, did_key_for, escape_dn_value, generate_cert,
    generate_cert_with_signer, generate_key, issue_cert, issue_cert_with_signer, key_to_pem,
    serial_number, PublicKey, SecretKey,
};
use muxl::cli::{cert_source, read_private_key, CertSource};
use muxl::encode::hex_lower;
use muxl::error::{invalid_mp4, Error};
use muxl::sign::es256k_key;
use muxl::verify::{leaf_pubkey_hex, leaf_subject_cn};

/// The generator of the curve, compressed.
const G: [u8; 33] = [
    0x02, 0x79, 0xbe, 0x66, 0x7e, 0xf9, 0xdc, 0xbb, 0xac, 0x55, 0xa0, 0x62, 0x95, 0xce, 0x87, 0x0b,
    0x07, 0x02, 0x9b, 0xfc, 0xdb, 0x2d, 0xce, 0x28, 0xd9, 0x59, 0xf2, 0x81, 0x5b, 0x16, 0xf8, 0x17,
    0x98,
];

#[test]
fn did_key_round_trip_through_cert() {
    let key = generate_key();
    let pub_key = key.public_key();
    let expected_did = did_key_for(&pub_key);

    let der = generate_cert(&key, None, None).unwrap();
    let parsed = Certificate::from_der(&der).unwrap();
    let cn = parsed.tbs_certificate.subject.to_string();
    assert!(cn.contains(&expected_did), "subject DN {cn:?} should embed {expected_did:?}");

    let spki = &parsed.tbs_certificate.subject_public_key_info;
    assert_eq!(spki.algorithm.oid.to_string(), muxl::cert::OID_EC_PUBLIC_KEY);
    assert_eq!(spki.subject_public_key.raw_bytes(), pub_key.uncompressed().as_slice());
}

#[test]
fn cert_pem_round_trips_through_k256() {
    let key = generate_key();
    let key_pem = key_to_pem(&key).unwrap();
    let restored = k256::SecretKey::from_sec1_pem(&key_pem)
        .or_else(|_| k256::SecretKey::from_pkcs8_pem(&key_pem))
        .unwrap();
    assert_eq!(key.to_bytes(), restored.to_bytes().to_vec());
    assert_eq!(read_private_key(key_pem.as_bytes()).unwrap().to_bytes(), key.to_bytes());
    assert_eq!(es256k_key(key_pem.as_bytes()).unwrap().to_bytes(), key.to_bytes());
}

#[test]
fn did_key_format_matches_bluesky_examples() {
    let key = generate_key();
    let did = did_key_for(&key.public_key());
    assert!(did.starts_with("did:key:z"), "{did}");
    let encoded_len = did.len() - "did:key:z".len();
    assert!(
        (45..=50).contains(&encoded_len),
        "did:key body should be ~48 chars, got {encoded_len}: {did}"
    );
    let generator = PublicKey::from_sec1_bytes(&G).unwrap();
    assert_eq!(
        did_key_for(&generator),
        "did:key:zQ3shVc2UkAfJCdc1TR8E66J85h48P43r93q8jGPkPpjF9Ef9"
    );
}

#[test]
fn host_signed_cert_embeds_pubkey_and_verifies() {
    let key = generate_key();
    let pubkey = key.public_key();
    let uncompressed = pubkey.uncompressed().clone();
    let did = format!("did:pkh:eip155:1:0x{}", hex_lower(&uncompressed[1..21]));

    let sign = |tbs_der: &[u8]| -> Result<Vec<u8>, Error> { Ok(key.sign_raw(tbs_der)) };
    let der =
        generate_cert_with_signer(&uncompressed, Some(&did), Some("Livepeer"), &sign).unwrap();

    let parsed = Certificate::from_der(&der).unwrap();
    assert_eq!(
        parsed.tbs_certificate.subject_public_key_info.subject_public_key.raw_bytes(),
        uncompressed.as_slice(),
        "cert SPKI must carry the supplied uncompressed pubkey"
    );
    assert!(
        parsed.tbs_certificate.subject.to_string().contains(&did),
        "cert DN must embed the supplied did:pkh"
    );

    let tbs_der = parsed.tbs_certificate.to_der().unwrap();
    let sig = k256::ecdsa::Signature::from_der(parsed.signature.raw_bytes()).unwrap();
    let vk = k256::ecdsa::VerifyingKey::from_sec1_bytes(&uncompressed).unwrap();
    vk.verify(&tbs_der, &sig).expect("cert self-signature must verify against its public key");
}

fn fixed_key() -> SecretKey {
    let pem = key_to_pem(&generate_key()).unwrap();
    SecretKey::from_pkcs8_pem(&pem).unwrap()
}

#[test]
fn a_certificate_holds_what_it_was_issued_with() {
    let key = fixed_key();
    let mut random = vec![0xabu8; 20];
    random[0] = 0x80;
    let now = 1_000_000_000;
    let der = issue_cert(&key, Some("did:web:a,b"), Some("Org"), &random, now).unwrap();
    assert_eq!(der, issue_cert(&key, Some("did:web:a,b"), Some("Org"), &random, now).unwrap());

    let parsed = Certificate::from_der(&der).unwrap();
    let tbs = &parsed.tbs_certificate;
    assert_eq!(tbs.issuer, tbs.subject);
    assert_eq!(tbs.serial_number.as_bytes()[0], 1);
    assert_eq!(tbs.serial_number.as_bytes().len(), 20);
    assert_eq!(tbs.signature.oid.to_string(), "1.2.840.10045.4.3.2");
    assert_eq!(tbs.validity.not_before.to_unix_duration().as_secs(), now);
    assert_eq!(tbs.validity.not_after.to_unix_duration().as_secs(), now + 3_153_600_000);
    let exts = tbs.extensions.as_ref().unwrap();
    let seen: Vec<(String, bool)> =
        exts.iter().map(|e| (e.extn_id.to_string(), e.critical)).collect();
    assert_eq!(
        seen,
        vec![
            ("2.5.29.19".to_string(), true),
            ("2.5.29.15".to_string(), true),
            ("2.5.29.37".to_string(), false),
            ("2.5.29.14".to_string(), false),
            ("2.5.29.35".to_string(), false),
        ]
    );
    assert_eq!(exts[0].extn_value.as_bytes(), &[0x30, 0x00]);
    assert_eq!(exts[1].extn_value.as_bytes(), &[0x03, 0x02, 0x07, 0x80]);
    assert_eq!(
        exts[2].extn_value.as_bytes(),
        &[0x30, 0x0a, 0x06, 0x08, 0x2b, 0x06, 0x01, 0x05, 0x05, 0x07, 0x03, 0x04]
    );
    let id = exts[3].extn_value.as_bytes();
    assert_eq!(&id[..2], &[0x04, 0x14]);
    assert_eq!(&exts[4].extn_value.as_bytes()[..4], &[0x30, 0x16, 0x80, 0x14]);
    assert_eq!(&exts[4].extn_value.as_bytes()[4..], &id[2..]);

    let tbs_der = tbs.to_der().unwrap();
    let sig = k256::ecdsa::Signature::from_der(parsed.signature.raw_bytes()).unwrap();
    let point = key.public_key();
    let vk = k256::ecdsa::VerifyingKey::from_sec1_bytes(point.compressed()).unwrap();
    vk.verify(&tbs_der, &sig).unwrap();

    let pem = cert_to_pem(&der);
    assert_eq!(leaf_pubkey_hex(&pem), Some(hex_lower(point.uncompressed())));
    assert!(pem.starts_with("-----BEGIN CERTIFICATE-----\n"));
    assert!(pem.ends_with("-----END CERTIFICATE-----\n"));
    assert!(pem.lines().all(|l| l.len() <= 64));
    assert_eq!(Certificate::load_pem_chain(pem.as_bytes()).unwrap().len(), 1);
}

#[test]
fn the_signer_of_a_certificate_is_read_back() {
    let key = fixed_key();
    let der = issue_cert(&key, None, Some("Org"), &vec![7; 20], 0).unwrap();
    let cn = leaf_subject_cn(&cert_to_pem(&der)).unwrap();
    assert_eq!(cn, did_key_for(&key.public_key()));
    assert_eq!(leaf_subject_cn("no certificate"), None);
    assert_eq!(leaf_pubkey_hex("\n\r\n"), None);
}

#[test]
fn both_ways_of_signing_bind_the_same_key() {
    let key = fixed_key();
    let random = vec![9u8; 20];
    let own = issue_cert(&key, None, None, &random, 5).unwrap();
    let sign = |tbs: &[u8]| -> Result<Vec<u8>, Error> { Ok(key.sign_raw(tbs)) };
    let hosted =
        issue_cert_with_signer(key.public_key().uncompressed(), None, None, &random, 5, &sign)
            .unwrap();
    assert_eq!(own, hosted);
}

#[test]
fn certificates_are_refused_in_words() {
    let sign = |_: &[u8]| -> Result<Vec<u8>, Error> { Ok(vec![1; 63]) };
    let e = generate_cert_with_signer(&[4; 65], None, None, &sign).unwrap_err();
    assert!(e.message().starts_with("bad secp256k1 public key: "), "{}", e.message());
    let key = generate_key();
    let uncompressed = key.public_key().uncompressed().clone();
    let e = generate_cert_with_signer(&uncompressed, None, None, &sign).unwrap_err();
    assert!(e.message().starts_with("expected a 64-byte r||s signature: "), "{}", e.message());
    let refuse = |_: &[u8]| -> Result<Vec<u8>, Error> { Err(invalid_mp4("refused")) };
    let e = generate_cert_with_signer(&uncompressed, None, None, &refuse).unwrap_err();
    assert_eq!(e.message(), "refused");
    let e = issue_cert(&key, None, None, &vec![1; 20], u64::MAX).unwrap_err();
    assert_eq!(e.message(), "validity overflow");
    let e = issue_cert(&key, None, None, &vec![1; 20], 1 << 60).unwrap_err();
    assert!(e.message().starts_with("S2PA cert build: "), "{}", e.message());
    let tbs = build_tbs(&key.public_key(), None, None, &vec![1; 20], 0).unwrap();
    assert_eq!(tbs.version, 2);
    assert_eq!(tbs.issuer, tbs.subject);
}

#[test]
fn names_are_escaped() {
    assert_eq!(escape_dn_value("did:key:zabc"), "did:key:zabc");
    assert_eq!(escape_dn_value("a,b+c\"d\\e<f>g;h"), "a\\,b\\+c\\\"d\\\\e\\<f\\>g\\;h");
    assert_eq!(escape_dn_value("#a#"), "\\#a#");
    assert_eq!(escape_dn_value(" a b "), "\\ a b\\ ");
    assert_eq!(escape_dn_value("\u{e9} "), "\u{e9}\\ ");
    assert_eq!(escape_dn_value(""), "");
}

#[test]
fn serial_numbers_are_positive() {
    assert_eq!(serial_number(&vec![0x80, 5])[0], 1);
    assert_eq!(serial_number(&vec![0xff, 5]), vec![0x7f, 5]);
    assert_eq!(serial_number(&vec![0x00]), vec![1]);
}

#[test]
fn what_a_certificate_is_issued_with() {
    let some = |s: &str| Some(s.to_string());
    let e = cert_source(None, some("04ff"), false).unwrap_err();
    assert_eq!(e.message(), "--pubkey requires --host-sign");
    assert!(matches!(
        cert_source(None, some("0x04ff"), true).unwrap(),
        Some(CertSource::Host(b)) if b == vec![4, 255]
    ));
    assert!(cert_source(None, some("0"), true).is_err());
    assert!(matches!(
        cert_source(some("k.pem"), None, false).unwrap(),
        Some(CertSource::Key(p)) if p == "k.pem"
    ));
    assert!(cert_source(None, None, true).unwrap().is_none());
}

#[test]
fn keys_that_are_none_are_refused() {
    let e = read_private_key(&[0xff]).err().unwrap();
    assert_eq!(e.message(), "key file is not UTF-8 PEM");
    let e = read_private_key(b"junk").err().unwrap();
    assert!(e.message().starts_with("parsing PKCS#8 PEM key: "), "{}", e.message());
    assert_eq!(es256k_key(&[0xff]).err().unwrap(), "private key is not UTF-8 PEM");
    assert!(es256k_key(b"junk").err().unwrap().starts_with("bad ES256K key PEM: "));
}

#[test]
fn raw_signatures_verify() {
    let key = generate_key();
    let sig = key.sign_raw(b"data");
    assert_eq!(sig, key.sign_raw(b"data"));
    let parsed = k256::ecdsa::Signature::from_slice(&sig).unwrap();
    let vk = k256::ecdsa::VerifyingKey::from_sec1_bytes(key.public_key().compressed()).unwrap();
    vk.verify(b"data", &parsed).unwrap();
    assert!(vk.verify(b"other", &parsed).is_err());
}

#[test]
fn names_that_would_be_misread_are_told_apart() {
    assert!(can_be_named("did:web:a,b"));
    assert!(can_be_named("a\\b 12345678901"));
    assert!(can_be_named("a\\,123456789=x"));
    assert!(!can_be_named("a\\,1.2.1234567890=x"));
    assert!(!can_be_named("a\\+99999999999=x"));
    let key = generate_key();
    assert!(can_be_named(&did_key_for(&key.public_key())));
    assert!(issue_cert(&key, Some("a\\,b"), None, &vec![1; 20], 0).is_err());
}

#[test]
fn a_bad_key_fails_with_its_own_error() {
    let sign = |_: &[u8]| -> Result<Vec<u8>, Error> { Ok(vec![0; 64]) };
    let e = generate_cert_with_signer(&[4; 65], None, None, &sign).unwrap_err();
    assert!(e.message().contains("bad secp256k1 public key: "));
}
