//! SHA-1, the hash that identifies pieces and swarms.

use sha1::Digest;
use vstd::prelude::*;

verus! {

/// The SHA-1 digest of a byte string, as the `sha1` crate computes it.
pub uninterp spec fn sha1_digest(data: Seq<u8>) -> Seq<u8>;

/// Calls `sha1::Sha1::digest` (the `Digest::digest` one-shot function) on
/// `data`. Trusted: the 20 bytes returned are the SHA-1 digest of `data`,
/// a function of the input bytes alone.
#[verifier::external_body]
pub(crate) fn digest_bytes(data: &[u8]) -> (digest: [u8; 20])
    ensures
        digest@ == sha1_digest(data@),
{
    sha1::Sha1::digest(data).into()
}

/// The swarm identifier: the SHA-1 digest of the bencoded `info` dictionary.
pub fn info_hash(bencoded_info: &[u8]) -> (hash: [u8; 20])
    ensures
        hash@ == sha1_digest(bencoded_info@),
{
    digest_bytes(bencoded_info)
}

} // verus!
