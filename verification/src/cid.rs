//! Content identifiers: a CID of version 1 with raw codec and a BLAKE3 digest,
//! in lowercase base32 behind a `b`.

use vstd::prelude::*;

use crate::encode::{base32, base32_lower_encode};

verus! {

/// The BLAKE3 digest of `data`.
pub uninterp spec fn blake3_digest(data: Seq<u8>) -> Seq<u8>;

/// Calls `blake3::hash`, the BLAKE3 hash of the input in its default mode with
/// the default output of 32 bytes.
#[verifier::external_body]
fn hash(data: &[u8]) -> (r: Vec<u8>)
    ensures
        r@ == blake3_digest(data@),
        r@.len() == 32,
{
    blake3::hash(data).as_bytes().to_vec()
}

/// The identifier of the content with the given digest: version 1, codec 0x55
/// (raw), hash function 0x1e (BLAKE3), digest length 0x20, and the digest.
pub open spec fn cid_text(digest: Seq<u8>) -> Seq<char> {
    seq!['b'] + base32(seq![0x01u8, 0x55u8, 0x1eu8, 0x20u8] + digest)
}

/// The identifier of the content with the given digest.
pub fn cid_from_digest(digest: &[u8]) -> (r: String)
    ensures
        r@ == cid_text(digest@),
{
    let mut bytes: Vec<u8> = vec![0x01, 0x55, 0x1e, 0x20];
    assert(bytes@ =~= seq![0x01u8, 0x55u8, 0x1eu8, 0x20u8]);
    bytes.extend_from_slice(digest);
    assert(bytes@ =~= seq![0x01u8, 0x55u8, 0x1eu8, 0x20u8] + digest@);
    let mut out = String::new();
    out.push('b');
    assert(out@ =~= seq!['b']);
    base32_lower_encode(bytes.as_slice(), &mut out);
    out
}

/// The identifier of `data`.
pub fn from_bytes(data: &[u8]) -> (r: String)
    ensures
        r@ == cid_text(blake3_digest(data@)),
{
    cid_from_digest(hash(data).as_slice())
}

} // verus!
