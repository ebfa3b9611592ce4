//! BLAKE3 digests, the one hash this library derives seeds from.

use vstd::prelude::*;

verus! {

/// BLAKE3's 32-byte digest of `data`.
pub uninterp spec fn blake3_digest(data: Seq<u8>) -> Seq<u8>;

/// Hashes `data` with `blake3::hash`. Claimed: the result is the digest
/// named [`blake3_digest`] of `data`, and it is 32 bytes long (BLAKE3's
/// default output length). Nothing is claimed of the digest's value.
#[verifier::external_body]
pub fn blake3_hash(data: &[u8]) -> (digest: Vec<u8>)
    ensures
        digest@ == blake3_digest(data@),
        digest@.len() == 32,
{
    blake3::hash(data).as_bytes().to_vec()
}

} // verus!
