//! SHA-1, by which a torrent and each of its pieces are identified.

use vstd::prelude::*;
use sha1::{Digest, Sha1};

verus! {

/// The SHA-1 digest of `data`: twenty bytes that depend on `data` alone.
pub uninterp spec fn sha1_of(data: Seq<u8>) -> Seq<u8>;

/// `Sha1::digest` of the sha1 crate. It is taken on trust that the twenty
/// bytes returned are the SHA-1 digest of `data`, the same for the same
/// bytes on every call.
#[verifier::external_body]
pub(crate) fn sha1_digest(data: &[u8]) -> (r: [u8; 20])
    ensures
        r@ == sha1_of(data@),
{
    Sha1::digest(data).into()
}

} // verus!
