//! Content digests: the SHA-256 digest of a byte string, and its hex form.

use vstd::prelude::*;
use crate::bytes::{spec_hex, to_hex};
use sha2::Digest;

verus! {

/// The SHA-256 digest of a byte string, as the sha2 crate computes it:
/// a function of the input bytes alone.
pub uninterp spec fn sha256_of(s: Seq<u8>) -> Seq<u8>;

/// Relies on sha2::Sha256::digest: the digest depends on the input bytes
/// alone, and is always 32 bytes long.
#[verifier::external_body]
pub(crate) fn sha256(s: &Vec<u8>) -> (r: Vec<u8>)
    ensures
        r@ == sha256_of(s@),
        r@.len() == 32,
{
    let d = sha2::Sha256::digest(s.as_slice());
    d.as_slice().to_vec()
}

/// The lowercase hex form of the SHA-256 digest of a byte string.
pub open spec fn spec_content_hash(s: Seq<u8>) -> Seq<u8> {
    spec_hex(sha256_of(s))
}

/// Computes the lowercase hex SHA-256 digest of a byte string.
pub fn content_hash(s: &Vec<u8>) -> (r: Vec<u8>)
    ensures
        r@ == spec_content_hash(s@),
        r@.len() == 64,
{
    let d = sha256(s);
    let h = to_hex(&d);
    proof {
        crate::bytes::lemma_spec_hex_len(d@);
    }
    h
}

} // verus!
