//! Certificates: self-signed leaf certificates over secp256k1 keys.
//!
//! The certificate is an envelope for a public key. Its common name is the DID
//! of the signer, by default the `did:key` of the key itself.

use const_oid::ObjectIdentifier;
use der::asn1::{BitString, OctetString};
use der::{Decode, Encode};
use k256::ecdsa::signature::Signer;
use k256::elliptic_curve::rand_core::{OsRng, RngCore};
use k256::elliptic_curve::sec1::ToEncodedPoint;
use k256::pkcs8::{DecodePrivateKey, EncodePrivateKey};
use sha1::Digest;
use spki::AlgorithmIdentifier;
use std::time::{Duration, SystemTime, UNIX_EPOCH};
use vstd::prelude::*;
use vstd::slice::{slice_subrange, slice_to_vec};
use x509_cert::ext::pkix::{
    AuthorityKeyIdentifier, BasicConstraints, ExtendedKeyUsage, KeyUsage, KeyUsages,
    SubjectKeyIdentifier,
};
use x509_cert::ext::Extension;
use x509_cert::name::Name;
use x509_cert::serial_number::SerialNumber;
use x509_cert::spki::SubjectPublicKeyInfoOwned;
use x509_cert::time::{Time, Validity};
use x509_cert::{Certificate, TbsCertificate, Version};

use crate::encode::{base58, base58btc_encode, base64, base64_encode, law_base58_is_plain};
use crate::error::{Error, ErrorView, IoError, IoKind};
use crate::text::{chars_of, string_of};

verus! {

/// Object identifier of public keys on elliptic curves.
pub const OID_EC_PUBLIC_KEY: &'static str = "1.2.840.10045.2.1";

/// Object identifier of the curve secp256k1.
pub const OID_SECP256K1: &'static str = "1.3.132.0.10";

/// Object identifier of ECDSA signatures over SHA-256 digests.
pub const OID_ECDSA_WITH_SHA256: &'static str = "1.2.840.10045.4.3.2";

/// Object identifier of the basic constraints.
pub const OID_BASIC_CONSTRAINTS: &'static str = "2.5.29.19";

/// Object identifier of the key usage.
pub const OID_KEY_USAGE: &'static str = "2.5.29.15";

/// Object identifier of the extended key usage.
pub const OID_EXT_KEY_USAGE: &'static str = "2.5.29.37";

/// Object identifier of the subject key identifier.
pub const OID_SUBJECT_KEY_ID: &'static str = "2.5.29.14";

/// Object identifier of the authority key identifier.
pub const OID_AUTHORITY_KEY_ID: &'static str = "2.5.29.35";

/// Object identifier of the protection of e-mail, as a purpose of a key.
pub const OID_EMAIL_PROTECTION: &'static str = "1.3.6.1.5.5.7.3.4";

/// Whether `oid` is one of the object identifiers above.
pub open spec fn known_oid(oid: Seq<char>) -> bool {
    ||| oid == OID_EC_PUBLIC_KEY@
    ||| oid == OID_SECP256K1@
    ||| oid == OID_ECDSA_WITH_SHA256@
    ||| oid == OID_BASIC_CONSTRAINTS@
    ||| oid == OID_KEY_USAGE@
    ||| oid == OID_EXT_KEY_USAGE@
    ||| oid == OID_SUBJECT_KEY_ID@
    ||| oid == OID_AUTHORITY_KEY_ID@
    ||| oid == OID_EMAIL_PROTECTION@
}

/// How long a certificate is valid, in seconds: 100 years of 365 days.
pub const VALIDITY_SECS: u64 = 3_153_600_000;

/// A failure to build a certificate, with the words of the encoder.
pub open spec fn cert_error(e: Seq<char>) -> ErrorView {
    ErrorView::Io(IoKind::InvalidData, "S2PA cert build: "@ + e)
}

/// A failure with a message of its own.
pub open spec fn cert_message(e: Seq<char>) -> ErrorView {
    ErrorView::Io(IoKind::InvalidData, e)
}

fn cert_err(e: String) -> (r: Error)
    ensures
        r@ == cert_error(e@),
{
    let mut message = "S2PA cert build: ".to_string();
    message.push_str(e.as_str());
    Error::Io(IoError { kind: IoKind::InvalidData, message })
}

fn cert_err_msg(head: &str, e: &str) -> (r: Error)
    ensures
        r@ == cert_message(head@ + e@),
{
    let mut message = head.to_string();
    message.push_str(e);
    Error::Io(IoError { kind: IoKind::InvalidData, message })
}

/// The points of a public key, in both forms of SEC 1.
pub struct Points {
    pub compressed: Seq<u8>,
    pub uncompressed: Seq<u8>,
}

/// The public key of the secret scalar `scalar`; none where that is no secret
/// key.
pub uninterp spec fn key_points(scalar: Seq<u8>) -> Option<Points>;

/// The public key that `bytes` encode, or why they encode none.
pub uninterp spec fn sec1_points(bytes: Seq<u8>) -> Result<Points, Seq<char>>;

/// The secret scalar that a PKCS#8 text holds, or why it holds none.
pub uninterp spec fn pkcs8_scalar(pem: Seq<char>) -> Result<Seq<u8>, Seq<char>>;

/// The PKCS#8 text of a secret scalar, or why there is none.
pub uninterp spec fn pkcs8_pem(scalar: Seq<u8>) -> Result<Seq<char>, Seq<char>>;

/// The DER form of the ECDSA signature of `data` under `scalar`; none where that
/// is no secret key.
pub uninterp spec fn ecdsa_der(scalar: Seq<u8>, data: Seq<u8>) -> Option<Seq<u8>>;

/// The ECDSA signature of `data` under `scalar`, its two halves of 32 bytes each;
/// none where that is no secret key.
pub uninterp spec fn ecdsa_raw(scalar: Seq<u8>, data: Seq<u8>) -> Option<Seq<u8>>;

/// The DER form of a signature of 64 bytes, or why `raw` is none.
pub uninterp spec fn rs_der(raw: Seq<u8>) -> Result<Seq<u8>, Seq<char>>;

/// Calls `k256::PublicKey::from_sec1_bytes`, and encodes the key in both forms of
/// SEC 1. Both forms depend on the bytes alone; they are not stated here. Reading
/// the uncompressed form gives the same key.
#[verifier::external_body]
fn read_sec1(bytes: &[u8]) -> (r: Result<(Vec<u8>, Vec<u8>), String>)
    ensures
        match r {
            Ok(p) => {
                let points = Points { compressed: p.0@, uncompressed: p.1@ };
                sec1_points(bytes@) == Ok::<Points, Seq<char>>(points) && sec1_points(p.1@) == Ok::<
                    Points,
                    Seq<char>,
                >(points)
            },
            Err(e) => sec1_points(bytes@) == Err::<Points, Seq<char>>(e@),
        },
{
    let key = k256::PublicKey::from_sec1_bytes(bytes).map_err(|e| e.to_string())?;
    Ok((key.to_sec1_bytes().to_vec(), key.to_encoded_point(false).as_bytes().to_vec()))
}

/// Calls `k256::SecretKey::from_slice` and `public_key`, and encodes that key in
/// both forms of SEC 1. Both depend on the scalar alone; they are not stated here.
/// Reading the uncompressed form gives the same key.
#[verifier::external_body]
fn derive_public(scalar: &[u8]) -> (r: Option<(Vec<u8>, Vec<u8>)>)
    ensures
        match r {
            Some(p) => {
                let points = Points { compressed: p.0@, uncompressed: p.1@ };
                key_points(scalar@) == Some(points) && sec1_points(p.1@) == Ok::<
                    Points,
                    Seq<char>,
                >(points)
            },
            None => key_points(scalar@) is None,
        },
{
    let key = k256::SecretKey::from_slice(scalar).ok()?.public_key();
    Some((key.to_sec1_bytes().to_vec(), key.to_encoded_point(false).as_bytes().to_vec()))
}

/// Calls `k256::SecretKey::random` with the random numbers of the platform. The
/// result is some secret key, in 32 bytes.
#[verifier::external_body]
fn random_scalar() -> (r: Vec<u8>)
    ensures
        r@.len() == 32,
        key_points(r@) is Some,
{
    k256::SecretKey::random(&mut OsRng).to_bytes().to_vec()
}

/// Calls `k256::SecretKey::from_pkcs8_pem`, which reads a secret key, of 32 bytes,
/// out of a PKCS#8 text. Which one depends on the text alone; it is not stated
/// here.
#[verifier::external_body]
fn read_pkcs8(pem: &str) -> (r: Result<Vec<u8>, String>)
    ensures
        match r {
            Ok(b) => pkcs8_scalar(pem@) == Ok::<Seq<u8>, Seq<char>>(b@) && b@.len() == 32
                && key_points(b@) is Some,
            Err(e) => pkcs8_scalar(pem@) == Err::<Seq<u8>, Seq<char>>(e@),
        },
{
    let key = k256::SecretKey::from_pkcs8_pem(pem).map_err(|e| e.to_string())?;
    Ok(key.to_bytes().to_vec())
}

/// Calls `k256::SecretKey::from_slice` and `to_pkcs8_pem` with lines that end in
/// a line feed. The text depends on the scalar alone; it is not stated here.
/// Reading a text that was written gives the scalar back.
#[verifier::external_body]
fn write_pkcs8(scalar: &[u8]) -> (r: Result<String, String>)
    requires
        scalar@.len() == 32,
    ensures
        match r {
            Ok(t) => pkcs8_pem(scalar@) == Ok::<Seq<char>, Seq<char>>(t@) && pkcs8_scalar(t@)
                == Ok::<Seq<u8>, Seq<char>>(scalar@),
            Err(e) => pkcs8_pem(scalar@) == Err::<Seq<char>, Seq<char>>(e@),
        },
{
    let key = k256::SecretKey::from_slice(scalar).map_err(|e| e.to_string())?;
    let pem = key.to_pkcs8_pem(k256::pkcs8::LineEnding::LF).map_err(|e| e.to_string())?;
    Ok(pem.as_str().to_string())
}

/// Calls `k256::ecdsa::SigningKey::from_slice` and `sign`, which draws its nonce
/// from the key and the data, and `to_der` of the signature. The result depends on
/// the scalar and the data alone, and there is one for every secret key of 32
/// bytes; the signature itself is not stated here.
#[verifier::external_body]
fn sign_der(scalar: &[u8], data: &[u8]) -> (r: Option<Vec<u8>>)
    ensures
        match r {
            Some(s) => ecdsa_der(scalar@, data@) == Some(s@),
            None => ecdsa_der(scalar@, data@) is None,
        },
        scalar@.len() == 32 && key_points(scalar@) is Some ==> r is Some,
{
    let key = k256::ecdsa::SigningKey::from_slice(scalar).ok()?;
    let signature: k256::ecdsa::Signature = key.sign(data);
    Some(signature.to_der().as_bytes().to_vec())
}

/// Calls `k256::ecdsa::SigningKey::from_slice` and `sign`, which draws its nonce
/// from the key and the data, and `to_bytes` of the signature, of 64 bytes. The
/// result depends on the scalar and the data alone, and there is one for every
/// secret key of 32 bytes; the signature itself is not stated here.
#[verifier::external_body]
fn sign_rs(scalar: &[u8], data: &[u8]) -> (r: Option<Vec<u8>>)
    ensures
        match r {
            Some(s) => ecdsa_raw(scalar@, data@) == Some(s@) && s@.len() == 64,
            None => ecdsa_raw(scalar@, data@) is None,
        },
        scalar@.len() == 32 && key_points(scalar@) is Some ==> r is Some,
{
    let key = k256::ecdsa::SigningKey::from_slice(scalar).ok()?;
    let signature: k256::ecdsa::Signature = key.sign(data);
    Some(signature.to_bytes().to_vec())
}

/// Calls `k256::ecdsa::Signature::from_slice`, which reads the two halves of a
/// signature of 64 bytes, and `to_der`. The result depends on the bytes alone; it
/// is not stated here.
#[verifier::external_body]
fn read_rs(raw: &[u8]) -> (r: Result<Vec<u8>, String>)
    ensures
        match r {
            Ok(d) => rs_der(raw@) == Ok::<Seq<u8>, Seq<char>>(d@),
            Err(e) => rs_der(raw@) == Err::<Seq<u8>, Seq<char>>(e@),
        },
{
    let signature = k256::ecdsa::Signature::from_slice(raw).map_err(|e| e.to_string())?;
    Ok(signature.to_der().as_bytes().to_vec())
}

/// A public key on the curve secp256k1.
#[derive(Debug)]
pub struct PublicKey {
    compressed: Vec<u8>,
    uncompressed: Vec<u8>,
}

impl View for PublicKey {
    type V = Points;

    closed spec fn view(&self) -> Points {
        Points { compressed: self.compressed@, uncompressed: self.uncompressed@ }
    }
}

impl PublicKey {
    /// The key that `bytes` encode in a form of SEC 1, or why they encode none.
    pub fn from_sec1_bytes(bytes: &[u8]) -> (r: Result<PublicKey, String>)
        ensures
            match r {
                Ok(k) => sec1_points(bytes@) == Ok::<Points, Seq<char>>(k@) && sec1_points(
                    k@.uncompressed,
                ) == Ok::<Points, Seq<char>>(k@),
                Err(e) => sec1_points(bytes@) == Err::<Points, Seq<char>>(e@),
            },
    {
        match read_sec1(bytes) {
            Ok((compressed, uncompressed)) => Ok(PublicKey { compressed, uncompressed }),
            Err(e) => Err(e),
        }
    }

    /// The compressed form of the key.
    pub fn compressed(&self) -> (r: &Vec<u8>)
        ensures
            r@ == self@.compressed,
    {
        &self.compressed
    }

    /// The uncompressed form of the key.
    pub fn uncompressed(&self) -> (r: &Vec<u8>)
        ensures
            r@ == self@.uncompressed,
    {
        &self.uncompressed
    }
}

/// A secret key on the curve secp256k1.
pub struct SecretKey {
    scalar: Vec<u8>,
}

impl View for SecretKey {
    type V = Seq<u8>;

    closed spec fn view(&self) -> Seq<u8> {
        self.scalar@
    }
}

impl SecretKey {
    #[verifier::type_invariant]
    spec fn is_key(self) -> bool {
        self.scalar@.len() == 32 && key_points(self.scalar@) is Some
    }

    /// The scalar, in 32 bytes.
    pub fn to_bytes(&self) -> (r: Vec<u8>)
        ensures
            r@ == self@,
            r@.len() == 32,
    {
        proof {
            use_type_invariant(self);
        }
        slice_to_vec(self.scalar.as_slice())
    }

    /// The key in a PKCS#8 text, or why it holds none.
    pub fn from_pkcs8_pem(pem: &str) -> (r: Result<SecretKey, String>)
        ensures
            match r {
                Ok(k) => pkcs8_scalar(pem@) == Ok::<Seq<u8>, Seq<char>>(k@),
                Err(e) => pkcs8_scalar(pem@) == Err::<Seq<u8>, Seq<char>>(e@),
            },
    {
        match read_pkcs8(pem) {
            Ok(scalar) => Ok(SecretKey { scalar }),
            Err(e) => Err(e),
        }
    }

    /// The public key that belongs to this key. Reading its uncompressed form
    /// gives it back.
    pub fn public_key(&self) -> (r: PublicKey)
        ensures
            key_points(self@) == Some(r@),
            sec1_points(r@.uncompressed) == Ok::<Points, Seq<char>>(r@),
    {
        proof {
            use_type_invariant(self);
        }
        match derive_public(self.scalar.as_slice()) {
            Some((compressed, uncompressed)) => PublicKey { compressed, uncompressed },
            None => PublicKey { compressed: Vec::new(), uncompressed: Vec::new() },
        }
    }

    /// The signature of `data` under this key, its two halves of 32 bytes each.
    pub fn sign_raw(&self, data: &[u8]) -> (r: Vec<u8>)
        ensures
            ecdsa_raw(self@, data@) == Some(r@),
            r@.len() == 64,
    {
        proof {
            use_type_invariant(self);
        }
        match sign_rs(self.scalar.as_slice(), data) {
            Some(s) => s,
            None => Vec::new(),
        }
    }

    /// The DER form of the signature of `data` under this key.
    fn sign(&self, data: &[u8]) -> (r: Vec<u8>)
        ensures
            ecdsa_der(self@, data@) == Some(r@),
    {
        proof {
            use_type_invariant(self);
        }
        match sign_der(self.scalar.as_slice(), data) {
            Some(s) => s,
            None => Vec::new(),
        }
    }
}

/// Whether the random numbers of the platform gave the secret key `scalar`.
pub closed spec fn key_drawn(scalar: Seq<u8>) -> bool {
    exists|v: Vec<u8>| v@ == scalar && #[trigger] call_ensures(random_scalar, (), v)
}

/// A fresh secret key: the one that the random numbers of the platform give.
pub fn generate_key() -> (r: SecretKey)
    ensures
        key_points(r@) is Some,
        key_drawn(r@),
{
    let scalar = random_scalar();
    assert(call_ensures(random_scalar, (), scalar));
    SecretKey { scalar }
}

/// `private_key` as a PKCS#8 text, from which it can be read back.
pub fn key_to_pem(private_key: &SecretKey) -> (r: Result<String, Error>)
    ensures
        match r {
            Ok(t) => pkcs8_pem(private_key@) == Ok::<Seq<char>, Seq<char>>(t@) && pkcs8_scalar(t@)
                == Ok::<Seq<u8>, Seq<char>>(private_key@),
            Err(e) => pkcs8_pem(private_key@) matches Err(t) && e@ == cert_message(
                "pkcs8 pem: "@ + t,
            ),
        },
{
    proof {
        use_type_invariant(private_key);
    }
    match write_pkcs8(private_key.scalar.as_slice()) {
        Ok(t) => Ok(t),
        Err(e) => Err(cert_err_msg("pkcs8 pem: ", e.as_str())),
    }
}

/// The `did:key` of a public key: `did:key:z` and the base58 form of the code of
/// secp256k1 keys, 0xe7 0x01, and the compressed key.
pub open spec fn did_key(compressed: Seq<u8>) -> Seq<char> {
    "did:key:z"@ + base58(seq![0xe7u8, 0x01u8] + compressed)
}

/// The `did:key` of `public_key`.
pub fn did_key_for(public_key: &PublicKey) -> (r: String)
    ensures
        r@ == did_key(public_key@.compressed),
{
    let mut payload: Vec<u8> = vec![0xe7, 0x01];
    assert(payload@ =~= seq![0xe7u8, 0x01u8]);
    payload.extend_from_slice(public_key.compressed.as_slice());
    assert(payload@ =~= seq![0xe7u8, 0x01u8] + public_key.compressed@);
    let mut out = "did:key:z".to_string();
    let digits = base58btc_encode(payload.as_slice());
    out.push_str(digits.as_str());
    out
}

/// Whether the character at `i` of a value in a distinguished name is written
/// behind a backslash (RFC 4514): the separators and quotes, a leading `#`, and a
/// space at either end.
pub open spec fn needs_escape(value: Seq<char>, i: int) -> bool {
    let c = value[i];
    ||| c == '"'
    ||| c == '+'
    ||| c == ','
    ||| c == ';'
    ||| c == '<'
    ||| c == '>'
    ||| c == '\\'
    ||| c == '#' && i == 0
    ||| c == ' ' && (i == 0 || i == value.len() - 1)
}

/// The rest of `value` from `i`, with the escapes.
pub open spec fn escaped_from(value: Seq<char>, i: int) -> Seq<char>
    decreases value.len() - i,
{
    if i < 0 || i >= value.len() {
        Seq::empty()
    } else if needs_escape(value, i) {
        seq!['\\', value[i]] + escaped_from(value, i + 1)
    } else {
        seq![value[i]] + escaped_from(value, i + 1)
    }
}

/// `value` with the escapes that a distinguished name asks for.
pub open spec fn escaped(value: Seq<char>) -> Seq<char> {
    escaped_from(value, 0)
}

/// `s` with each escape replaced by the character behind the backslash.
pub open spec fn unescaped(s: Seq<char>) -> Seq<char>
    decreases s.len(),
{
    if s.len() == 0 {
        Seq::empty()
    } else if s[0] == '\\' && s.len() >= 2 {
        seq![s[1]] + unescaped(s.skip(2))
    } else {
        seq![s[0]] + unescaped(s.skip(1))
    }
}

proof fn lemma_unescaped(value: Seq<char>, i: int)
    requires
        0 <= i <= value.len(),
    ensures
        unescaped(escaped_from(value, i)) == value.skip(i),
    decreases value.len() - i,
{
    let s = escaped_from(value, i);
    if i == value.len() {
        assert(s =~= Seq::<char>::empty());
        assert(value.skip(i) =~= Seq::<char>::empty());
    } else {
        lemma_unescaped(value, i + 1);
        assert(value.skip(i) =~= seq![value[i]] + value.skip(i + 1));
        if needs_escape(value, i) {
            assert(s.skip(2) =~= escaped_from(value, i + 1));
            assert(s[0] == '\\' && s[1] == value[i]);
        } else {
            assert(s.skip(1) =~= escaped_from(value, i + 1));
            assert(s[0] == value[i]);
        }
    }
}

/// Taking the escapes out again gives back the value.
pub proof fn law_escape_is_undone(value: Seq<char>)
    ensures
        unescaped(escaped(value)) == value,
{
    lemma_unescaped(value, 0);
    assert(value.skip(0) =~= value);
}

/// `value` with the escapes that a distinguished name asks for.
pub fn escape_dn_value(value: &str) -> (r: String)
    ensures
        r@ == escaped(value@),
{
    let cs = chars_of(value);
    let mut out = String::new();
    let mut i: usize = 0;
    while i < cs.len()
        invariant
            i <= cs@.len(),
            cs@ == value@,
            out@ + escaped_from(value@, i as int) == escaped(value@),
        decreases cs@.len() - i,
    {
        let c = cs[i];
        let ghost before = out@;
        if c == '"' || c == '+' || c == ',' || c == ';' || c == '<' || c == '>' || c == '\\' || (c
            == '#' && i == 0) || (c == ' ' && (i == 0 || i == cs.len() - 1)) {
            out.push('\\');
        }
        out.push(c);
        proof {
            let rest = escaped_from(value@, i + 1);
            assert(out@ + rest =~= before + escaped_from(value@, i as int));
        }
        i += 1;
    }
    assert(out@ + Seq::<char>::empty() =~= out@);
    out
}

/// The distinguished name of a certificate: the common name, and the
/// organization where there is one.
pub open spec fn dn_text(cn: Seq<char>, organization: Option<Seq<char>>) -> Seq<char> {
    match organization {
        Some(o) => "CN="@ + escaped(cn) + ",O="@ + escaped(o),
        None => "CN="@ + escaped(cn),
    }
}

/// Whether ten digits stand in `value` from `i` on.
pub open spec fn ten_digits(value: Seq<char>, i: int) -> bool {
    0 <= i && i + 10 <= value.len() && forall|k: int|
        i <= k < i + 10 ==> '0' <= #[trigger] value[k] <= '9'
}

/// Whether a backslash stands at `i` in `value`, directly before a separator of
/// attributes. Behind the escapes of the two, the name parser takes the separator
/// for one that ends the attribute.
pub open spec fn splits_value(value: Seq<char>, i: int) -> bool {
    0 <= i && i + 1 < value.len() && value[i] == '\\' && (value[i + 1] == ',' || value[i + 1]
        == '+')
}

/// Whether the name parser may read a number of ten digits or more in `value` as part
/// of an object identifier. Its arithmetic does not hold such numbers.
pub open spec fn misread(value: Seq<char>) -> bool {
    exists|i: int, j: int|
        #[trigger] splits_value(value, i) && #[trigger] ten_digits(value, j) && i + 2 <= j
}

/// Whether an optional value is none that the name parser misreads.
pub open spec fn writable(value: Option<Seq<char>>) -> bool {
    value matches Some(v) ==> !misread(v)
}

/// Whether `dn` is a distinguished name that the name parser does not misread.
pub open spec fn is_dn(dn: Seq<char>) -> bool {
    exists|cn: Seq<char>, organization: Option<Seq<char>>| #[trigger]
        dn_text(cn, organization) == dn && !misread(cn) && writable(organization)
}

fn first_split(cs: &[char]) -> (r: Option<usize>)
    ensures
        match r {
            Some(i) => splits_value(cs@, i as int) && forall|k: int|
                #[trigger] splits_value(cs@, k) ==> i <= k,
            None => forall|k: int| !#[trigger] splits_value(cs@, k),
        },
{
    let mut i: usize = 0;
    while i < cs.len()
        invariant
            i <= cs@.len(),
            forall|k: int| #[trigger] splits_value(cs@, k) ==> i <= k,
        decreases cs@.len() - i,
    {
        if i + 1 < cs.len() && cs[i] == '\\' && (cs[i + 1] == ',' || cs[i + 1] == '+') {
            return Some(i);
        }
        assert(!splits_value(cs@, i as int));
        i += 1;
    }
    None
}

fn holds_ten_digits(cs: &[char], start: usize) -> (r: bool)
    requires
        start <= cs@.len(),
    ensures
        r == exists|j: int| start <= j && #[trigger] ten_digits(cs@, j),
{
    let mut from: usize = start;
    let mut i: usize = start;
    while i < cs.len()
        invariant
            start <= from <= i <= cs@.len(),
            i - from < 10,
            from == start || !('0' <= cs@[from - 1] <= '9'),
            forall|k: int| from <= k < i ==> '0' <= #[trigger] cs@[k] <= '9',
            forall|j: int| start <= j && #[trigger] ten_digits(cs@, j) ==> from <= j,
        decreases cs@.len() - i,
    {
        let c = cs[i];
        if '0' <= c && c <= '9' {
            if i - from == 9 {
                assert(ten_digits(cs@, from as int));
                return true;
            }
        } else {
            assert forall|j: int| start <= j && #[trigger] ten_digits(cs@, j) implies i + 1 <= j by {
                if j <= i {
                    assert('0' <= cs@[i as int] <= '9');
                }
            }
            from = i + 1;
        }
        i += 1;
    }
    assert forall|j: int| start <= j implies !#[trigger] ten_digits(cs@, j) by {
    }
    false
}

/// Whether `value` can stand in the name of a certificate: the name parser does not
/// misread it.
pub fn can_be_named(value: &str) -> (r: bool)
    ensures
        r == !misread(value@),
{
    let cs = chars_of(value);
    match first_split(cs.as_slice()) {
        None => true,
        Some(i) => {
            let found: bool = holds_ten_digits(cs.as_slice(), i + 2);
            proof {
                if found {
                    let j = choose|j: int| i + 2 <= j && #[trigger] ten_digits(cs@, j);
                    assert(splits_value(value@, i as int) && ten_digits(value@, j));
                }
            }
            !found
        },
    }
}

/// The `did:key` of a key can stand in a name.
proof fn lemma_did_key_writable(compressed: Seq<u8>)
    ensures
        !misread(did_key(compressed)),
{
    let bytes = seq![0xe7u8, 0x01u8] + compressed;
    let text = did_key(compressed);
    reveal_strlit("did:key:z");
    law_base58_is_plain(bytes);
    assert forall|i: int| !#[trigger] splits_value(text, i) by {
        if 0 <= i && i + 1 < text.len() {
            if i >= 9 {
                assert(text[i] == base58(bytes)[i - 9]);
            }
        }
    }
}

fn distinguished_name(cn: &str, organization: Option<&str>) -> (r: String)
    ensures
        r@ == dn_text(
            cn@,
            match organization {
                Some(o) => Some(o@),
                None => None,
            },
        ),
{
    let mut dn = "CN=".to_string();
    let cn_text = escape_dn_value(cn);
    dn.push_str(cn_text.as_str());
    match organization {
        Some(o) => {
            dn.push_str(",O=");
            let o_text = escape_dn_value(o);
            dn.push_str(o_text.as_str());
        },
        None => {},
    }
    dn
}

/// `out` with the lines of `text` behind it from `i` on, each of 64 characters
/// but the last.
pub open spec fn with_lines(out: Seq<char>, text: Seq<char>, i: int) -> Seq<char>
    decreases text.len() - i,
{
    if i < 0 || i >= text.len() {
        out
    } else {
        let end = if text.len() - i < 64 {
            text.len() as int
        } else {
            i + 64
        };
        with_lines((out + text.subrange(i, end)).push('\n'), text, end)
    }
}

/// The textual form of RFC 7468 of `data` under `label`.
pub open spec fn pem_text(label: Seq<char>, data: Seq<u8>) -> Seq<char> {
    let begin = "-----BEGIN "@ + label + "-----\n"@;
    with_lines(begin, base64(data), 0) + "-----END "@ + label + "-----\n"@
}

/// The textual form of RFC 7468 of `der_bytes` under `label`.
fn pem_block(label: &str, der_bytes: &[u8]) -> (r: String)
    ensures
        r@ == pem_text(label@, der_bytes@),
{
    let b64 = base64_encode(der_bytes);
    let cs = chars_of(b64.as_str());
    let mut out = "-----BEGIN ".to_string();
    out.push_str(label);
    out.push_str("-----\n");
    let ghost begin = out@;
    let mut i: usize = 0;
    while i < cs.len()
        invariant
            i <= cs@.len(),
            cs@ == base64(der_bytes@),
            with_lines(out@, cs@, i as int) == with_lines(begin, cs@, 0),
        decreases cs@.len() - i,
    {
        let end: usize = if cs.len() - i < 64 {
            cs.len()
        } else {
            i + 64
        };
        let line = string_of(slice_subrange(cs.as_slice(), i, end));
        out.push_str(line.as_str());
        out.push('\n');
        i = end;
    }
    out.push_str("-----END ");
    out.push_str(label);
    out.push_str("-----\n");
    out
}

/// The PEM block of a certificate.
pub fn cert_to_pem(der_bytes: &[u8]) -> (r: String)
    ensures
        r@ == pem_text("CERTIFICATE"@, der_bytes@),
{
    pem_block("CERTIFICATE", der_bytes)
}

/// The serial number drawn as `random`: its first byte is cleared of its sign bit
/// and made at least one, so that the number is positive and keeps its length.
pub open spec fn serial_of(random: Seq<u8>) -> Seq<u8> {
    let first = random[0] % 128;
    random.update(
        0,
        if first == 0 {
            1u8
        } else {
            first
        },
    )
}

/// The serial number drawn as `random`.
pub fn serial_number(random: &Vec<u8>) -> (r: Vec<u8>)
    requires
        random@.len() > 0,
    ensures
        r@ == serial_of(random@),
        1 <= r@[0] < 128,
        r@.len() == random@.len(),
{
    let mut serial: Vec<u8> = random.clone();
    let first: u8 = serial[0] % 128;
    serial.set(
        0,
        if first == 0 {
            1
        } else {
            first
        },
    );
    serial
}

/// An extension of a certificate.
#[derive(Debug)]
pub struct ExtensionPart {
    pub oid: String,
    pub critical: bool,
    pub value: Vec<u8>,
}

/// Contents of an [`ExtensionPart`].
pub struct ExtensionView {
    pub oid: Seq<char>,
    pub critical: bool,
    pub value: Seq<u8>,
}

impl View for ExtensionPart {
    type V = ExtensionView;

    open spec fn view(&self) -> ExtensionView {
        ExtensionView { oid: self.oid@, critical: self.critical, value: self.value@ }
    }
}

/// How a certificate of version 3 numbers its version.
pub const CERT_V3: u8 = 2;

/// The parts of a certificate before it is signed. All but the version, the serial
/// number and the identifier of the algorithm are in their DER form.
#[derive(Debug)]
pub struct Tbs {
    pub version: u8,
    pub serial: Vec<u8>,
    pub signature_oid: String,
    pub issuer: Vec<u8>,
    pub subject: Vec<u8>,
    pub validity: Vec<u8>,
    pub key: Vec<u8>,
    pub extensions: Vec<u8>,
}

/// Contents of a [`Tbs`].
pub struct TbsView {
    pub version: u8,
    pub serial: Seq<u8>,
    pub signature_oid: Seq<char>,
    pub issuer: Seq<u8>,
    pub subject: Seq<u8>,
    pub validity: Seq<u8>,
    pub key: Seq<u8>,
    pub extensions: Seq<u8>,
}

impl View for Tbs {
    type V = TbsView;

    open spec fn view(&self) -> TbsView {
        TbsView {
            version: self.version,
            serial: self.serial@,
            signature_oid: self.signature_oid@,
            issuer: self.issuer@,
            subject: self.subject@,
            validity: self.validity@,
            key: self.key@,
            extensions: self.extensions@,
        }
    }
}

/// The SHA-1 digest of `data`.
pub uninterp spec fn sha1_digest(data: Seq<u8>) -> Seq<u8>;

/// The DER form of the name that `dn` writes in the form of RFC 4514, or why it
/// writes none.
pub uninterp spec fn name_der(dn: Seq<char>) -> Result<Seq<u8>, Seq<char>>;

/// The DER form of the public key `key` under an algorithm and a curve, or why
/// there is none.
pub uninterp spec fn spki_der(algorithm: Seq<char>, curve: Seq<char>, key: Seq<u8>) -> Result<
    Seq<u8>,
    Seq<char>,
>;

/// The DER form of a validity, in seconds since 1970, or why there is none.
pub uninterp spec fn validity_der(not_before: u64, not_after: u64) -> Result<Seq<u8>, Seq<char>>;

/// The DER form of the list of the one purpose `purpose`, or why there is none.
pub uninterp spec fn purpose_der(purpose: Seq<char>) -> Result<Seq<u8>, Seq<char>>;

/// The DER form of a list of extensions, or why there is none.
pub uninterp spec fn extensions_der(parts: Seq<ExtensionView>) -> Result<Seq<u8>, Seq<char>>;

/// The DER form of an unsigned certificate, or why there is none.
pub uninterp spec fn tbs_der(tbs: TbsView) -> Result<Seq<u8>, Seq<char>>;

/// The DER form of a certificate: the unsigned certificate, the identifier of the
/// algorithm and the signature; or why there is none.
pub uninterp spec fn cert_der(tbs: Seq<u8>, algorithm: Seq<char>, signature: Seq<u8>) -> Result<
    Seq<u8>,
    Seq<char>,
>;

/// Calls `sha1::Sha1::digest`, the SHA-1 hash, of 20 bytes.
#[verifier::external_body]
fn sha1_of(data: &[u8]) -> (r: Vec<u8>)
    ensures
        r@ == sha1_digest(data@),
        r@.len() == 20,
{
    sha1::Sha1::digest(data).to_vec()
}

/// Parses `dn` as an `x509_cert::name::Name` and calls `to_der`. The result
/// depends on the text alone; it is not stated here. The parser reads an attribute
/// type that it does not know as an object identifier, with unchecked arithmetic, so
/// it is handed names of the form of [`dn_text`] whose values it cannot misread.
#[verifier::external_body]
fn encode_name(dn: &str) -> (r: Result<Vec<u8>, String>)
    requires
        is_dn(dn@),
    ensures
        match r {
            Ok(d) => name_der(dn@) == Ok::<Seq<u8>, Seq<char>>(d@),
            Err(e) => name_der(dn@) == Err::<Seq<u8>, Seq<char>>(e@),
        },
{
    let name: Name = dn.parse().map_err(|e: der::Error| e.to_string())?;
    name.to_der().map_err(|e| e.to_string())
}

/// Calls `to_der` of an `x509_cert::spki::SubjectPublicKeyInfoOwned` with the two
/// object identifiers and the key. The result depends on the arguments alone; it is
/// not stated here. The reader of object identifiers does not check its arithmetic,
/// so it is handed none but those of this module.
#[verifier::external_body]
fn encode_spki(algorithm: &str, curve: &str, key: &[u8]) -> (r: Result<Vec<u8>, String>)
    requires
        known_oid(algorithm@),
        known_oid(curve@),
    ensures
        match r {
            Ok(d) => spki_der(algorithm@, curve@, key@) == Ok::<Seq<u8>, Seq<char>>(d@),
            Err(e) => spki_der(algorithm@, curve@, key@) == Err::<Seq<u8>, Seq<char>>(e@),
        },
{
    let oid = ObjectIdentifier::new(algorithm).map_err(|e| e.to_string())?;
    let curve = ObjectIdentifier::new(curve).map_err(|e| e.to_string())?;
    let info = SubjectPublicKeyInfoOwned {
        algorithm: AlgorithmIdentifier { oid, parameters: Some(der::Any::from(&curve)) },
        subject_public_key: BitString::from_bytes(key).map_err(|e| e.to_string())?,
    };
    info.to_der().map_err(|e| e.to_string())
}

/// Calls `x509_cert::time::Time::try_from` on both times, and `to_der` of the
/// `Validity` of the two. The result depends on the times alone; it is not stated
/// here.
#[verifier::external_body]
fn encode_validity(not_before: u64, not_after: u64) -> (r: Result<Vec<u8>, String>)
    ensures
        match r {
            Ok(d) => validity_der(not_before, not_after) == Ok::<Seq<u8>, Seq<char>>(d@),
            Err(e) => validity_der(not_before, not_after) == Err::<Seq<u8>, Seq<char>>(e@),
        },
{
    let at = |secs: u64| -> der::Result<Time> {
        let since = UNIX_EPOCH.checked_add(Duration::from_secs(secs));
        Time::try_from(since.ok_or(der::Error::from(der::ErrorKind::DateTime))?)
    };
    let not_before = at(not_before).map_err(|e| e.to_string())?;
    let not_after = at(not_after).map_err(|e| e.to_string())?;
    Validity { not_before, not_after }.to_der().map_err(|e| e.to_string())
}

/// Calls `to_der` of the `x509_cert::ext::pkix::BasicConstraints` of a leaf: an
/// empty sequence, since both of its fields have their defaults.
#[verifier::external_body]
fn basic_constraints() -> (r: Result<Vec<u8>, String>)
    ensures
        r is Ok,
        r->Ok_0@ == seq![0x30u8, 0x00],
{
    let leaf = BasicConstraints { ca: false, path_len_constraint: None };
    leaf.to_der().map_err(|e| e.to_string())
}

/// Calls `to_der` of the `x509_cert::ext::pkix::KeyUsage` with digital signatures
/// alone: a bit string of one bit.
#[verifier::external_body]
fn key_usage() -> (r: Result<Vec<u8>, String>)
    ensures
        r is Ok,
        r->Ok_0@ == seq![0x03u8, 0x02, 0x07, 0x80],
{
    KeyUsage(KeyUsages::DigitalSignature.into()).to_der().map_err(|e| e.to_string())
}

/// Calls `to_der` of the `x509_cert::ext::pkix::ExtendedKeyUsage` with one purpose.
/// The result depends on the identifier, one of this module's; it is not stated here.
#[verifier::external_body]
fn extended_key_usage(purpose: &str) -> (r: Result<Vec<u8>, String>)
    requires
        known_oid(purpose@),
    ensures
        match r {
            Ok(d) => purpose_der(purpose@) == Ok::<Seq<u8>, Seq<char>>(d@),
            Err(e) => purpose_der(purpose@) == Err::<Seq<u8>, Seq<char>>(e@),
        },
{
    let oid = ObjectIdentifier::new(purpose).map_err(|e| e.to_string())?;
    ExtendedKeyUsage(vec![oid]).to_der().map_err(|e| e.to_string())
}

/// Calls `to_der` of the `x509_cert::ext::pkix::SubjectKeyIdentifier` of a key
/// identifier of 20 bytes: an octet string.
#[verifier::external_body]
fn subject_key_id(id: &[u8]) -> (r: Result<Vec<u8>, String>)
    requires
        id@.len() == 20,
    ensures
        r is Ok,
        r->Ok_0@ == seq![0x04u8, 0x14] + id@,
{
    let key_id = OctetString::new(id).map_err(|e| e.to_string())?;
    SubjectKeyIdentifier(key_id).to_der().map_err(|e| e.to_string())
}

/// Calls `to_der` of the `x509_cert::ext::pkix::AuthorityKeyIdentifier` with
/// nothing but a key identifier of 20 bytes: a sequence of that, under the tag of
/// its first field.
#[verifier::external_body]
fn authority_key_id(id: &[u8]) -> (r: Result<Vec<u8>, String>)
    requires
        id@.len() == 20,
    ensures
        r is Ok,
        r->Ok_0@ == seq![0x30u8, 0x16, 0x80, 0x14] + id@,
{
    let key_id = OctetString::new(id).map_err(|e| e.to_string())?;
    let authority = AuthorityKeyIdentifier {
        key_identifier: Some(key_id),
        authority_cert_issuer: None,
        authority_cert_serial_number: None,
    };
    authority.to_der().map_err(|e| e.to_string())
}

/// The views of `parts`.
pub open spec fn parts_view(parts: Seq<ExtensionPart>) -> Seq<ExtensionView> {
    parts.map_values(|e: ExtensionPart| e@)
}

/// Calls `to_der` of the list of an `x509_cert::ext::Extension` for each part. The
/// result depends on the parts alone; it is not stated here. Their identifiers are
/// of this module.
#[verifier::external_body]
fn encode_extensions(parts: &Vec<ExtensionPart>) -> (r: Result<Vec<u8>, String>)
    requires
        forall|i: int| 0 <= i < parts@.len() ==> known_oid(#[trigger] parts@[i]@.oid),
    ensures
        match r {
            Ok(d) => extensions_der(parts_view(parts@)) == Ok::<Seq<u8>, Seq<char>>(d@),
            Err(e) => extensions_der(parts_view(parts@)) == Err::<Seq<u8>, Seq<char>>(e@),
        },
{
    let one = |e: &ExtensionPart| -> der::Result<Extension> {
        let extn_id = ObjectIdentifier::new(&e.oid)?;
        let extn_value = OctetString::new(e.value.as_slice())?;
        Ok(Extension { extn_id, critical: e.critical, extn_value })
    };
    let list = parts.iter().map(one).collect::<der::Result<Vec<Extension>>>();
    list.and_then(|l| l.to_der()).map_err(|e| e.to_string())
}

/// Calls `to_der` of an `x509_cert::TbsCertificate` with these parts. The result
/// depends on the parts alone; it is not stated here. The identifier is of this module.
#[verifier::external_body]
fn encode_tbs(tbs: &Tbs) -> (r: Result<Vec<u8>, String>)
    requires
        known_oid(tbs@.signature_oid),
    ensures
        match r {
            Ok(d) => tbs_der(tbs@) == Ok::<Seq<u8>, Seq<char>>(d@),
            Err(e) => tbs_der(tbs@) == Err::<Seq<u8>, Seq<char>>(e@),
        },
{
    let made = || -> der::Result<Vec<u8>> {
        let oid = ObjectIdentifier::new(&tbs.signature_oid)?;
        TbsCertificate {
            version: Version::try_from(tbs.version)?,
            serial_number: SerialNumber::new(&tbs.serial)?,
            signature: AlgorithmIdentifier { oid, parameters: None },
            issuer: Name::from_der(&tbs.issuer)?,
            validity: Validity::from_der(&tbs.validity)?,
            subject: Name::from_der(&tbs.subject)?,
            subject_public_key_info: SubjectPublicKeyInfoOwned::from_der(&tbs.key)?,
            issuer_unique_id: None, subject_unique_id: None,
            extensions: Some(Vec::<Extension>::from_der(&tbs.extensions)?),
        }.to_der()
    };
    made().map_err(|e| e.to_string())
}

/// Calls `to_der` of an `x509_cert::Certificate` of an unsigned certificate, an
/// algorithm and a signature. The result depends on the arguments alone; it is not
/// stated here. The identifier of the algorithm is of this module.
#[verifier::external_body]
fn encode_cert(tbs: &[u8], algorithm: &str, signature: &[u8]) -> (r: Result<Vec<u8>, String>)
    requires
        known_oid(algorithm@),
    ensures
        match r {
            Ok(d) => cert_der(tbs@, algorithm@, signature@) == Ok::<Seq<u8>, Seq<char>>(d@),
            Err(e) => cert_der(tbs@, algorithm@, signature@) == Err::<Seq<u8>, Seq<char>>(e@),
        },
{
    let oid = ObjectIdentifier::new(algorithm).map_err(|e| e.to_string())?;
    let cert = Certificate {
        tbs_certificate: TbsCertificate::from_der(tbs).map_err(|e| e.to_string())?,
        signature_algorithm: AlgorithmIdentifier { oid, parameters: None },
        signature: BitString::from_bytes(signature).map_err(|e| e.to_string())?,
    };
    cert.to_der().map_err(|e| e.to_string())
}

/// Calls `fill_bytes` of the random numbers of the platform, for 20 bytes. Nothing
/// more is promised of them.
#[verifier::external_body]
fn random_serial() -> (r: Vec<u8>)
    ensures
        r@.len() == 20,
{
    let mut bytes = vec![0u8; 20];
    OsRng.fill_bytes(&mut bytes);
    bytes
}

/// Calls `std::time::SystemTime::now`, in seconds since 1970; none where the clock
/// stands before that. Nothing more is promised of it.
#[verifier::external_body]
fn unix_now() -> (r: Option<u64>) {
    SystemTime::now().duration_since(UNIX_EPOCH).ok().map(|d| d.as_secs())
}

/// The extensions of a certificate whose key has the identifier `id`, given the
/// DER form of the purpose of the key: no authority, for digital signatures alone,
/// for that purpose, and the identifier as that of the subject and of the issuer.
pub open spec fn extensions_for(id: Seq<u8>, purpose: Seq<u8>) -> Seq<ExtensionView> {
    seq![
        ExtensionView {
            oid: OID_BASIC_CONSTRAINTS@,
            critical: true,
            value: seq![0x30u8, 0x00],
        },
        ExtensionView {
            oid: OID_KEY_USAGE@,
            critical: true,
            value: seq![0x03u8, 0x02, 0x07, 0x80],
        },
        ExtensionView { oid: OID_EXT_KEY_USAGE@, critical: false, value: purpose },
        ExtensionView {
            oid: OID_SUBJECT_KEY_ID@,
            critical: false,
            value: seq![0x04u8, 0x14] + id,
        },
        ExtensionView {
            oid: OID_AUTHORITY_KEY_ID@,
            critical: false,
            value: seq![0x30u8, 0x16, 0x80, 0x14] + id,
        },
    ]
}

/// The DER form of the extensions of a certificate over the key `uncompressed`. Its
/// identifier is the SHA-1 digest of the key.
pub open spec fn extensions_over(uncompressed: Seq<u8>) -> Result<Seq<u8>, Seq<char>> {
    match purpose_der(OID_EMAIL_PROTECTION@) {
        Ok(purpose) => extensions_der(extensions_for(sha1_digest(uncompressed), purpose)),
        Err(e) => Err(e),
    }
}

/// The common name of a certificate: `did`, or the `did:key` of the key.
pub open spec fn common_name(key: Points, did: Option<Seq<char>>) -> Seq<char> {
    match did {
        Some(d) => d,
        None => did_key(key.compressed),
    }
}

/// The certificate over `key` before it is signed, with the serial number drawn as
/// `random`, valid from `now` on; or the failure of the first part that has no DER
/// form. It is of version 3, and its own issuer.
pub open spec fn planned_tbs(
    key: Points,
    did: Option<Seq<char>>,
    organization: Option<Seq<char>>,
    random: Seq<u8>,
    now: u64,
) -> Result<TbsView, ErrorView> {
    match name_der(dn_text(common_name(key, did), organization)) {
        Err(e) => Err(cert_error(e)),
        Ok(name) => match spki_der(OID_EC_PUBLIC_KEY@, OID_SECP256K1@, key.uncompressed) {
            Err(e) => Err(cert_error(e)),
            Ok(spki) => match extensions_over(key.uncompressed) {
                Err(e) => Err(cert_error(e)),
                Ok(extensions) => if now + VALIDITY_SECS > u64::MAX {
                    Err(cert_message("validity overflow"@))
                } else {
                    match validity_der(now, (now + VALIDITY_SECS) as u64) {
                        Err(e) => Err(cert_error(e)),
                        Ok(validity) => Ok(
                            TbsView {
                                version: CERT_V3,
                                serial: serial_of(random),
                                signature_oid: OID_ECDSA_WITH_SHA256@,
                                issuer: name,
                                subject: name,
                                validity,
                                key: spki,
                                extensions,
                            },
                        ),
                    }
                },
            },
        },
    }
}

/// The text of an optional text.
pub open spec fn opt_text(t: Option<&str>) -> Option<Seq<char>> {
    match t {
        Some(s) => Some(s@),
        None => None,
    }
}

fn part(oid: &str, critical: bool, value: Vec<u8>) -> (r: ExtensionPart)
    ensures
        r@ == (ExtensionView { oid: oid@, critical, value: value@ }),
{
    ExtensionPart { oid: oid.to_string(), critical, value }
}

fn build_extensions(uncompressed: &[u8]) -> (r: Result<Vec<u8>, Error>)
    ensures
        match r {
            Ok(d) => extensions_over(uncompressed@) == Ok::<Seq<u8>, Seq<char>>(d@),
            Err(e) => extensions_over(uncompressed@) matches Err(t) && e@ == cert_error(t),
        },
{
    let id = sha1_of(uncompressed);
    let constraints = match basic_constraints() {
        Ok(d) => d,
        Err(e) => return Err(cert_err(e)),
    };
    let usage = match key_usage() {
        Ok(d) => d,
        Err(e) => return Err(cert_err(e)),
    };
    let purpose = match extended_key_usage(OID_EMAIL_PROTECTION) {
        Ok(d) => d,
        Err(e) => return Err(cert_err(e)),
    };
    let subject = match subject_key_id(id.as_slice()) {
        Ok(d) => d,
        Err(e) => return Err(cert_err(e)),
    };
    let authority = match authority_key_id(id.as_slice()) {
        Ok(d) => d,
        Err(e) => return Err(cert_err(e)),
    };
    let ghost purpose_bytes = purpose@;
    let mut parts: Vec<ExtensionPart> = Vec::new();
    parts.push(part(OID_BASIC_CONSTRAINTS, true, constraints));
    parts.push(part(OID_KEY_USAGE, true, usage));
    parts.push(part(OID_EXT_KEY_USAGE, false, purpose));
    parts.push(part(OID_SUBJECT_KEY_ID, false, subject));
    parts.push(part(OID_AUTHORITY_KEY_ID, false, authority));
    assert(parts_view(parts@) =~= extensions_for(id@, purpose_bytes));
    assert forall|i: int| 0 <= i < parts@.len() implies known_oid(#[trigger] parts@[i]@.oid) by {
        assert(parts_view(parts@)[i] == parts@[i]@);
    }
    match encode_extensions(&parts) {
        Ok(d) => Ok(d),
        Err(e) => Err(cert_err(e)),
    }
}

/// The certificate over `public_key` before it is signed. Its common name is `did`,
/// or the `did:key` of the key; `organization` is put beside it. Its serial number
/// is drawn as `random`, and it is valid for 100 years from `now`, in seconds since
/// 1970.
pub fn build_tbs(
    public_key: &PublicKey,
    did: Option<&str>,
    organization: Option<&str>,
    random: &Vec<u8>,
    now: u64,
) -> (r: Result<Tbs, Error>)
    requires
        writable(opt_text(did)),
        writable(opt_text(organization)),
        random@.len() > 0,
    ensures
        match r {
            Ok(t) => planned_tbs(public_key@, opt_text(did), opt_text(organization), random@, now)
                == Ok::<TbsView, ErrorView>(t@),
            Err(e) => planned_tbs(public_key@, opt_text(did), opt_text(organization), random@, now)
                == Err::<TbsView, ErrorView>(e@),
        },
{
    let dn = match did {
        Some(d) => distinguished_name(d, organization),
        None => {
            let own = did_key_for(public_key);
            proof {
                lemma_did_key_writable(public_key@.compressed);
            }
            distinguished_name(own.as_str(), organization)
        },
    };
    assert(is_dn(dn@)) by {
        assert(dn@ == dn_text(common_name(public_key@, opt_text(did)), opt_text(organization)));
    }
    let issuer = match encode_name(dn.as_str()) {
        Ok(d) => d,
        Err(e) => return Err(cert_err(e)),
    };
    let subject = slice_to_vec(issuer.as_slice());
    let uncompressed = public_key.uncompressed();
    let key = match encode_spki(OID_EC_PUBLIC_KEY, OID_SECP256K1, uncompressed.as_slice()) {
        Ok(d) => d,
        Err(e) => return Err(cert_err(e)),
    };
    let extensions = match build_extensions(uncompressed.as_slice()) {
        Ok(d) => d,
        Err(e) => return Err(e),
    };
    let serial = serial_number(random);
    let not_after: u64 = match now.checked_add(VALIDITY_SECS) {
        Some(t) => t,
        None => return Err(
            Error::Io(
                IoError { kind: IoKind::InvalidData, message: "validity overflow".to_string() },
            ),
        ),
    };
    let validity = match encode_validity(now, not_after) {
        Ok(d) => d,
        Err(e) => return Err(cert_err(e)),
    };
    Ok(
        Tbs {
            version: CERT_V3,
            serial,
            signature_oid: OID_ECDSA_WITH_SHA256.to_string(),
            issuer,
            subject,
            validity,
            key,
            extensions,
        },
    )
}

/// The certificate of an unsigned certificate and its signature.
pub open spec fn assembled(tbs: Seq<u8>, signature: Seq<u8>) -> Result<Seq<u8>, ErrorView> {
    match cert_der(tbs, OID_ECDSA_WITH_SHA256@, signature) {
        Ok(der) => Ok(der),
        Err(e) => Err(cert_error(e)),
    }
}

fn assemble_cert(tbs: &[u8], signature_der: &[u8]) -> (r: Result<Vec<u8>, Error>)
    ensures
        match r {
            Ok(d) => assembled(tbs@, signature_der@) == Ok::<Seq<u8>, ErrorView>(d@),
            Err(e) => assembled(tbs@, signature_der@) == Err::<Seq<u8>, ErrorView>(e@),
        },
{
    match encode_cert(tbs, OID_ECDSA_WITH_SHA256, signature_der) {
        Ok(d) => Ok(d),
        Err(e) => Err(cert_err(e)),
    }
}

/// What is signed of a planned certificate, or why there is nothing to sign.
pub open spec fn signable(planned: Result<TbsView, ErrorView>) -> Result<Seq<u8>, ErrorView> {
    match planned {
        Err(e) => Err(e),
        Ok(tbs) => match tbs_der(tbs) {
            Err(e) => Err(cert_error(e)),
            Ok(bytes) => Ok(bytes),
        },
    }
}

fn signable_tbs(
    public_key: &PublicKey,
    did: Option<&str>,
    organization: Option<&str>,
    random: &Vec<u8>,
    now: u64,
) -> (r: Result<Vec<u8>, Error>)
    requires
        writable(opt_text(did)),
        writable(opt_text(organization)),
        random@.len() > 0,
    ensures
        match r {
            Ok(d) => signable(
                planned_tbs(public_key@, opt_text(did), opt_text(organization), random@, now),
            ) == Ok::<Seq<u8>, ErrorView>(d@),
            Err(e) => signable(
                planned_tbs(public_key@, opt_text(did), opt_text(organization), random@, now),
            ) == Err::<Seq<u8>, ErrorView>(e@),
        },
{
    let tbs = match build_tbs(public_key, did, organization, random, now) {
        Ok(t) => t,
        Err(e) => return Err(e),
    };
    match encode_tbs(&tbs) {
        Ok(d) => Ok(d),
        Err(e) => Err(cert_err(e)),
    }
}

/// The certificate of the key `scalar`, signed with that key.
pub open spec fn issued(
    scalar: Seq<u8>,
    did: Option<Seq<char>>,
    organization: Option<Seq<char>>,
    random: Seq<u8>,
    now: u64,
) -> Result<Seq<u8>, ErrorView> {
    match signable(planned_tbs(key_points(scalar)->Some_0, did, organization, random, now)) {
        Err(e) => Err(e),
        Ok(tbs) => assembled(tbs, ecdsa_der(scalar, tbs)->Some_0),
    }
}

/// The certificate of `private_key`, signed with that key, with the serial number
/// drawn as `random` and valid from `now` on.
pub fn issue_cert(
    private_key: &SecretKey,
    did: Option<&str>,
    organization: Option<&str>,
    random: &Vec<u8>,
    now: u64,
) -> (r: Result<Vec<u8>, Error>)
    requires
        writable(opt_text(did)),
        writable(opt_text(organization)),
        random@.len() > 0,
    ensures
        match r {
            Ok(d) => issued(private_key@, opt_text(did), opt_text(organization), random@, now)
                == Ok::<Seq<u8>, ErrorView>(d@),
            Err(e) => issued(private_key@, opt_text(did), opt_text(organization), random@, now)
                == Err::<Seq<u8>, ErrorView>(e@),
        },
{
    let public_key = private_key.public_key();
    let tbs = match signable_tbs(&public_key, did, organization, random, now) {
        Ok(t) => t,
        Err(e) => return Err(e),
    };
    let signature = private_key.sign(tbs.as_slice());
    assemble_cert(tbs.as_slice(), signature.as_slice())
}

/// Whether the clock reads `now`, in seconds since 1970; none where it stands before
/// that.
pub closed spec fn clock_reads(now: Option<u64>) -> bool {
    call_ensures(unix_now, (), now)
}

/// Whether the random numbers of the platform gave the 20 bytes `random`.
pub closed spec fn serial_drawn(random: Seq<u8>) -> bool {
    exists|v: Vec<u8>| v@ == random && #[trigger] call_ensures(random_serial, (), v)
}

/// The time that the clock reads.
fn read_clock() -> (r: Option<u64>)
    ensures
        clock_reads(r),
{
    let now: Option<u64> = unix_now();
    assert(call_ensures(unix_now, (), now));
    now
}

/// Bytes for a serial number.
fn draw_serial() -> (r: Vec<u8>)
    ensures
        r@.len() == 20,
        serial_drawn(r@),
{
    let random = random_serial();
    assert(call_ensures(random_serial, (), random));
    random
}

/// Whether `r` is what issuing a certificate gives for the 20 random bytes drawn and
/// the time that the clock reads. It fails where the clock stands before 1970, and
/// only there for that reason.
pub open spec fn issued_some_time(
    scalar: Seq<u8>,
    did: Option<Seq<char>>,
    organization: Option<Seq<char>>,
    r: Result<Seq<u8>, ErrorView>,
) -> bool {
    ||| clock_reads(None) && r == Err::<Seq<u8>, ErrorView>(cert_error("date/time error"@))
    ||| exists|random: Seq<u8>, now: u64|
        random.len() == 20 && serial_drawn(random) && clock_reads(Some(now)) && r
            == #[trigger] issued(scalar, did, organization, random, now)
}

/// The certificate of `private_key`, signed with that key, with a random serial
/// number and valid from now on.
pub fn generate_cert(
    private_key: &SecretKey,
    did: Option<&str>,
    organization: Option<&str>,
) -> (r: Result<Vec<u8>, Error>)
    requires
        writable(opt_text(did)),
        writable(opt_text(organization)),
    ensures
        issued_some_time(
            private_key@,
            opt_text(did),
            opt_text(organization),
            match r {
                Ok(d) => Ok(d@),
                Err(e) => Err(e@),
            },
        ),
{
    let now: u64 = match read_clock() {
        Some(t) => t,
        None => return Err(cert_err("date/time error".to_string())),
    };
    let random = draw_serial();
    issue_cert(private_key, did, organization, &random, now)
}

/// The DER form of a signature of 64 bytes, or the failure.
pub open spec fn raw_signature(raw: Seq<u8>) -> Result<Seq<u8>, ErrorView> {
    match rs_der(raw) {
        Ok(d) => Ok(d),
        Err(e) => Err(cert_message("expected a 64-byte r||s signature: "@ + e)),
    }
}

fn raw_rs_to_der(raw: &[u8]) -> (r: Result<Vec<u8>, Error>)
    ensures
        match r {
            Ok(d) => raw_signature(raw@) == Ok::<Seq<u8>, ErrorView>(d@),
            Err(e) => raw_signature(raw@) == Err::<Seq<u8>, ErrorView>(e@),
        },
{
    match read_rs(raw) {
        Ok(d) => Ok(d),
        Err(e) => Err(cert_err_msg("expected a 64-byte r||s signature: ", e.as_str())),
    }
}

/// The certificate of `tbs` under what a signer answered: its own failure, or 64
/// bytes.
pub open spec fn countersigned(
    tbs: Seq<u8>,
    answer: Result<Seq<u8>, ErrorView>,
) -> Result<Seq<u8>, ErrorView> {
    match answer {
        Err(e) => Err(e),
        Ok(raw) => match raw_signature(raw) {
            Err(e) => Err(e),
            Ok(signature) => assembled(tbs, signature),
        },
    }
}

/// The contents of a result.
pub open spec fn outcome(r: Result<Vec<u8>, Error>) -> Result<Seq<u8>, ErrorView> {
    match r {
        Ok(d) => Ok(d@),
        Err(e) => Err(e@),
    }
}

/// Whether `r` is a certificate over the key that `bytes` encode, signed by
/// `sign_tbs`, with the serial number drawn as `random` and valid from `now` on.
pub open spec fn issued_by<F: Fn(&[u8]) -> Result<Vec<u8>, Error>>(
    bytes: Seq<u8>,
    did: Option<Seq<char>>,
    organization: Option<Seq<char>>,
    random: Seq<u8>,
    now: u64,
    sign_tbs: F,
    r: Result<Seq<u8>, ErrorView>,
) -> bool {
    match sec1_points(bytes) {
        Err(e) => r == Err::<Seq<u8>, ErrorView>(bad_key(e)),
        Ok(key) => issued_over(key, did, organization, random, now, sign_tbs, r),
    }
}

/// The failure of a public key that cannot be read, with the words of the reader.
pub open spec fn bad_key(e: Seq<char>) -> ErrorView {
    cert_message("bad secp256k1 public key: "@ + e)
}

/// As [`issued_by`], over the key `key`.
pub open spec fn issued_over<F: Fn(&[u8]) -> Result<Vec<u8>, Error>>(
    key: Points,
    did: Option<Seq<char>>,
    organization: Option<Seq<char>>,
    random: Seq<u8>,
    now: u64,
    sign_tbs: F,
    r: Result<Seq<u8>, ErrorView>,
) -> bool {
    match signable(planned_tbs(key, did, organization, random, now)) {
        Err(e) => r == Err::<Seq<u8>, ErrorView>(e),
        Ok(tbs) => exists|data: &[u8], answer: Result<Vec<u8>, Error>|
            data@ == tbs && #[trigger] call_ensures(sign_tbs, (data,), answer) && r
                == countersigned(tbs, outcome(answer)),
    }
}

fn read_public_key(bytes: &[u8]) -> (r: Result<PublicKey, Error>)
    ensures
        match r {
            Ok(k) => sec1_points(bytes@) == Ok::<Points, Seq<char>>(k@),
            Err(e) => sec1_points(bytes@) matches Err(t) && e@ == bad_key(t),
        },
{
    match PublicKey::from_sec1_bytes(bytes) {
        Ok(k) => Ok(k),
        Err(e) => Err(cert_err_msg("bad secp256k1 public key: ", e.as_str())),
    }
}

fn issue_over<F: Fn(&[u8]) -> Result<Vec<u8>, Error>>(
    public_key: &PublicKey,
    did: Option<&str>,
    organization: Option<&str>,
    random: &Vec<u8>,
    now: u64,
    sign_tbs: &F,
) -> (r: Result<Vec<u8>, Error>)
    requires
        writable(opt_text(did)),
        writable(opt_text(organization)),
        random@.len() > 0,
        forall|data: &[u8]| #[trigger] call_requires(*sign_tbs, (data,)),
    ensures
        issued_over(
            public_key@,
            opt_text(did),
            opt_text(organization),
            random@,
            now,
            *sign_tbs,
            outcome(r),
        ),
{
    let tbs = match signable_tbs(public_key, did, organization, random, now) {
        Ok(t) => t,
        Err(e) => return Err(e),
    };
    let answer = (*sign_tbs)(tbs.as_slice());
    let raw = match answer {
        Ok(raw) => raw,
        Err(e) => return Err(e),
    };
    let signature = match raw_rs_to_der(raw.as_slice()) {
        Ok(s) => s,
        Err(e) => return Err(e),
    };
    assemble_cert(tbs.as_slice(), signature.as_slice())
}

/// The certificate over the key that `public_key_uncompressed` encodes, signed by
/// `sign_tbs`, which is handed the unsigned certificate and answers with a signature
/// of 64 bytes. The serial number is drawn as `random`, and the certificate is valid
/// from `now` on.
pub fn issue_cert_with_signer<F: Fn(&[u8]) -> Result<Vec<u8>, Error>>(
    public_key_uncompressed: &[u8],
    did: Option<&str>,
    organization: Option<&str>,
    random: &Vec<u8>,
    now: u64,
    sign_tbs: &F,
) -> (r: Result<Vec<u8>, Error>)
    requires
        writable(opt_text(did)),
        writable(opt_text(organization)),
        random@.len() > 0,
        forall|data: &[u8]| #[trigger] call_requires(*sign_tbs, (data,)),
    ensures
        issued_by(
            public_key_uncompressed@,
            opt_text(did),
            opt_text(organization),
            random@,
            now,
            *sign_tbs,
            outcome(r),
        ),
{
    let public_key = match read_public_key(public_key_uncompressed) {
        Ok(k) => k,
        Err(e) => return Err(e),
    };
    issue_over(&public_key, did, organization, random, now, sign_tbs)
}

/// Whether `r` is a certificate as of [`issued_by`] for the 20 random bytes drawn and
/// the time that the clock reads. A key that cannot be read fails whatever the clock
/// reads; another fails for the clock where that stands before 1970.
pub open spec fn issued_by_some_time<F: Fn(&[u8]) -> Result<Vec<u8>, Error>>(
    bytes: Seq<u8>,
    did: Option<Seq<char>>,
    organization: Option<Seq<char>>,
    sign_tbs: F,
    r: Result<Seq<u8>, ErrorView>,
) -> bool {
    match sec1_points(bytes) {
        Err(e) => r == Err::<Seq<u8>, ErrorView>(bad_key(e)),
        Ok(key) => issued_over_some_time(key, did, organization, sign_tbs, r),
    }
}

/// As [`issued_by_some_time`], over the key `key`.
pub open spec fn issued_over_some_time<F: Fn(&[u8]) -> Result<Vec<u8>, Error>>(
    key: Points,
    did: Option<Seq<char>>,
    organization: Option<Seq<char>>,
    sign_tbs: F,
    r: Result<Seq<u8>, ErrorView>,
) -> bool {
    ||| clock_reads(None) && r == Err::<Seq<u8>, ErrorView>(cert_error("date/time error"@))
    ||| exists|random: Seq<u8>, now: u64|
        random.len() == 20 && serial_drawn(random) && clock_reads(Some(now))
            && #[trigger] issued_over(key, did, organization, random, now, sign_tbs, r)
}

/// The certificate over the key that `public_key_uncompressed` encodes, signed by
/// `sign_tbs`, with a random serial number and valid from now on.
pub fn generate_cert_with_signer<F: Fn(&[u8]) -> Result<Vec<u8>, Error>>(
    public_key_uncompressed: &[u8],
    did: Option<&str>,
    organization: Option<&str>,
    sign_tbs: &F,
) -> (r: Result<Vec<u8>, Error>)
    requires
        writable(opt_text(did)),
        writable(opt_text(organization)),
        forall|data: &[u8]| #[trigger] call_requires(*sign_tbs, (data,)),
    ensures
        issued_by_some_time(
            public_key_uncompressed@,
            opt_text(did),
            opt_text(organization),
            *sign_tbs,
            outcome(r),
        ),
{
    let public_key = match read_public_key(public_key_uncompressed) {
        Ok(k) => k,
        Err(e) => return Err(e),
    };
    let now: u64 = match read_clock() {
        Some(t) => t,
        None => return Err(cert_err("date/time error".to_string())),
    };
    let random = draw_serial();
    issue_over(&public_key, did, organization, &random, now, sign_tbs)
}

} // verus!
