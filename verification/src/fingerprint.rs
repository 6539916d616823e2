//! SHA-256 digests.
use sha2::Digest;
use vstd::prelude::*;

use crate::numbers;
use crate::numbers::hex;

verus! {

/// The SHA-256 digest of a byte string.
pub uninterp spec fn sha256(bytes: Seq<u8>) -> Seq<u8>;

/// `sha2::Sha256::digest`; the digest is named, and its length is that of the array.
#[verifier::external_body]
pub(crate) fn sha256_digest(bytes: &[u8]) -> (r: [u8; 32])
    ensures
        r@ == sha256(bytes@),
{
    sha2::Sha256::digest(bytes).into()
}

/// The SHA-256 digest of `bytes` in hexadecimal.
pub fn sha256_hex(bytes: &[u8]) -> (r: String)
    ensures
        r@ == numbers::hex_text(sha256(bytes@)),
{
    let digest = sha256_digest(bytes);
    hex(digest.as_slice())
}

} // verus!
