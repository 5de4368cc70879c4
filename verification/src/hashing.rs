//! Digest computation for block verification.
//!
//! The engine verifies a block by hashing its bytes with the algorithm
//! named in the CID's multihash code and comparing against the digest the
//! CID carries. SHA2-256 and SHA2-512 are the supported algorithms.

use vstd::prelude::*;
use sha2::Digest;
use crate::cid::{HASH_SHA2_256, HASH_SHA2_512};

verus! {

/// The SHA2-256 digest of a byte string: 32 bytes, a function of the
/// input alone.
pub uninterp spec fn sha256_of(bytes: Seq<u8>) -> Seq<u8>;

/// The SHA2-512 digest of a byte string: 64 bytes, a function of the
/// input alone.
pub uninterp spec fn sha512_of(bytes: Seq<u8>) -> Seq<u8>;

/// Relies on `sha2::Sha256::digest`: the SHA2-256 digest, 32 bytes,
/// depending on the input bytes alone.
#[verifier::external_body]
fn sha256(bytes: &[u8]) -> (r: Vec<u8>)
    ensures
        r@ == sha256_of(bytes@),
        r@.len() == 32,
{
    sha2::Sha256::digest(bytes).to_vec()
}

/// Relies on `sha2::Sha512::digest`: the SHA2-512 digest, 64 bytes,
/// depending on the input bytes alone.
#[verifier::external_body]
fn sha512(bytes: &[u8]) -> (r: Vec<u8>)
    ensures
        r@ == sha512_of(bytes@),
        r@.len() == 64,
{
    sha2::Sha512::digest(bytes).to_vec()
}

/// Whether the multihash code names a hash algorithm the engine can
/// compute: SHA2-256 or SHA2-512.
pub open spec fn hash_code_supported(code: int) -> bool {
    code == HASH_SHA2_256 || code == HASH_SHA2_512
}

/// The digest of `bytes` under the hash algorithm with multihash code
/// `code`, or `None` when the algorithm is unsupported.
pub open spec fn digest_of(code: int, bytes: Seq<u8>) -> Option<Seq<u8>> {
    if code == HASH_SHA2_256 {
        Some(sha256_of(bytes))
    } else if code == HASH_SHA2_512 {
        Some(sha512_of(bytes))
    } else {
        None
    }
}

/// Compute the digest of `bytes` under the algorithm with multihash code
/// `code`; `None` when the code names no supported algorithm.
pub fn compute_digest(code: u64, bytes: &[u8]) -> (r: Option<Vec<u8>>)
    ensures
        match r {
            Some(d) => digest_of(code as int, bytes@) == Some(d@) && d@.len() <= 64,
            None => digest_of(code as int, bytes@) is None,
        },
{
    if code == HASH_SHA2_256 {
        Some(sha256(bytes))
    } else if code == HASH_SHA2_512 {
        Some(sha512(bytes))
    } else {
        None
    }
}

/// Byte-for-byte equality of two byte strings.
pub fn bytes_eq(a: &[u8], b: &[u8]) -> (r: bool)
    ensures
        r <==> a@ == b@,
{
    if a.len() != b.len() {
        return false;
    }
    let mut i: usize = 0;
    while i < a.len()
        invariant
            a@.len() == b@.len(),
            0 <= i <= a@.len(),
            forall|j: int| 0 <= j < i ==> a@[j] == b@[j],
        decreases a@.len() - i,
    {
        if a[i] != b[i] {
            return false;
        }
        i += 1;
    }
    assert(a@ =~= b@);
    true
}

} // verus!
