use vstd::prelude::*;

use crypto::digest::Digest;
use crypto::sha2::Sha256;

verus! {

/// The SHA-256 digest of `bytes`, written as lowercase hex digits.
pub uninterp spec fn sha256_hex_of(bytes: Seq<u8>) -> Seq<char>;

/// Relies on rust-crypto's `Sha256` (`input`, then `Digest::result_str`): the
/// hex form of the digest, which depends on the bytes alone.
#[verifier::external_body]
pub(crate) fn sha256_hex(bytes: &[u8]) -> (r: String)
    ensures
        r@ == sha256_hex_of(bytes@),
{
    let mut hasher = Sha256::new();
    hasher.input(bytes);
    hasher.result_str()
}

} // verus!
