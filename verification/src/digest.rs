//! SHA-1 and SHA-256.

use sha1::Sha1;
use sha2::{Digest, Sha256};
use vstd::prelude::*;

verus! {

/// What SHA-1 makes of `data`.
pub uninterp spec fn sha1_digest(data: Seq<u8>) -> [u8; 20];

/// What SHA-256 makes of `data`.
pub uninterp spec fn sha256_digest(data: Seq<u8>) -> [u8; 32];

/// The bytes of the SHA-1 digest of `data`.
pub open spec fn sha1_of(data: Seq<u8>) -> Seq<u8> {
    sha1_digest(data)@
}

/// The bytes of the SHA-256 digest of `data`.
pub open spec fn sha256_of(data: Seq<u8>) -> Seq<u8> {
    sha256_digest(data)@
}

/// `sha1::Sha1::digest` hashes the whole of `data`; the digest is a function of the bytes alone.
#[verifier::external_body]
pub(crate) fn sha1(data: &[u8]) -> (r: [u8; 20])
    ensures
        r == sha1_digest(data@),
{
    Sha1::digest(data).into()
}

/// `sha2::Sha256::digest` hashes the whole of `data`; the digest is a function of the bytes alone.
#[verifier::external_body]
pub(crate) fn sha256(data: &[u8]) -> (r: [u8; 32])
    ensures
        r == sha256_digest(data@),
{
    Sha256::digest(data).into()
}

} // verus!
