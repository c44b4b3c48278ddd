use vstd::prelude::*;

verus! {

/// The 32-byte BLAKE2b digest of a byte string, as computed by
/// `sp_crypto_hashing::blake2_256`.
pub uninterp spec fn blake2_256_of(data: Seq<u8>) -> [u8; 32];

/// Relies on `sp_crypto_hashing::blake2_256`: the digest is a function of the
/// input bytes alone.
#[verifier::external_body]
pub(crate) fn blake2_256(data: &[u8]) -> (r: [u8; 32])
    ensures
        r == blake2_256_of(data@),
{
    sp_crypto_hashing::blake2_256(data)
}

} // verus!
