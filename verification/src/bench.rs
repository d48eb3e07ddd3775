//! The input of the hashing benchmark, and the work done on it.

use sha2::Digest;
use vstd::prelude::*;

use crate::encode::{le_bytes, push_le};

verus! {

/// Where the numbers of the benchmark start.
pub const SEED: u64 = 0xdead_beef_cafe_babe;

/// The number after `s`, in Marsaglia's xorshift of 64 bits.
pub open spec fn xorshift(s: u64) -> u64 {
    let a = s ^ (s << 13);
    let b = a ^ (a >> 7);
    b ^ (b << 17)
}

/// `n` bytes of the numbers after `s`, eight of each.
pub open spec fn noise(s: u64, n: nat) -> Seq<u8>
    decreases n,
{
    if n == 0 {
        Seq::empty()
    } else if n < 8 {
        le_bytes(xorshift(s), n)
    } else {
        le_bytes(xorshift(s), 8) + noise(xorshift(s), (n - 8) as nat)
    }
}

/// The input of the benchmark: `size` bytes that are the same in every run.
pub fn bench_input(size: usize) -> (r: Vec<u8>)
    ensures
        r@ == noise(SEED, size as nat),
{
    let mut out: Vec<u8> = Vec::new();
    let mut s: u64 = SEED;
    let mut left: usize = size;
    assert(out@ + noise(SEED, size as nat) =~= noise(SEED, size as nat));
    while left > 0
        invariant
            out@ + noise(s, left as nat) == noise(SEED, size as nat),
        decreases left,
    {
        let ghost before = out@;
        let ghost last = s;
        s = s ^ (s << 13);
        s = s ^ (s >> 7);
        s = s ^ (s << 17);
        let n: usize = if left < 8 {
            left
        } else {
            8
        };
        push_le(&mut out, s, n);
        proof {
            assert(s == xorshift(last));
            assert(noise(s, 0) =~= Seq::empty());
            assert(out@ + noise(s, (left - n) as nat) =~= before + noise(last, left as nat));
        }
        left = left - n;
    }
    assert(out@ + Seq::<u8>::empty() =~= out@);
    out
}

/// The SHA-256 digest of `data`.
pub uninterp spec fn sha256_digest(data: Seq<u8>) -> Seq<u8>;

/// Calls `sha2::Sha256::digest`, the SHA-256 hash, of 32 bytes.
#[verifier::external_body]
fn sha256(data: &[u8]) -> (r: Vec<u8>)
    ensures
        r@ == sha256_digest(data@),
        r@.len() == 32,
{
    sha2::Sha256::digest(data).to_vec()
}

/// Hashes `data` `iterations` times over, and gives the first bytes of all digests,
/// each exclusive-or the others: nothing after an even number of times, and the
/// first byte of the digest after an odd number.
pub fn bench_sentinel(data: &[u8], iterations: usize) -> (r: u8)
    ensures
        r == if iterations % 2 == 0 {
            0u8
        } else {
            sha256_digest(data@)[0]
        },
{
    let mut acc: u8 = 0;
    let mut i: usize = 0;
    while i < iterations
        invariant
            i <= iterations,
            acc == if i % 2 == 0 {
                0u8
            } else {
                sha256_digest(data@)[0]
            },
        decreases iterations - i,
    {
        let digest = sha256(data);
        let b: u8 = digest[0];
        assert(0u8 ^ b == b && b ^ b == 0u8) by (bit_vector);
        acc = acc ^ b;
        i += 1;
    }
    acc
}

} // verus!
