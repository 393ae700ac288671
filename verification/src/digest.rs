//! The digest that seals an archive.

use vstd::prelude::*;

verus! {

/// The SHA-1 digest of a byte string.
pub uninterp spec fn sha1_digest(data: Seq<u8>) -> Seq<u8>;

/// `openssl::sha::sha1`: the SHA-1 digest of the data, 20 bytes long.
#[verifier::external_body]
pub(crate) fn sha1(data: &[u8]) -> (d: [u8; 20])
    ensures
        d@ == sha1_digest(data@),
{
    openssl::sha::sha1(data)
}

} // verus!
