//! The hash functions the wire format is built on.

use vstd::prelude::*;

verus! {

/// The 32-byte BLAKE3 hash of `data`.
pub uninterp spec fn blake3_digest(data: Seq<u8>) -> Seq<u8>;

/// The 32-byte Keccak-256 hash (the pre-standard SHA-3 variant used by
/// Ethereum) of `data`.
pub uninterp spec fn keccak256_digest(data: Seq<u8>) -> Seq<u8>;

/// `blake3::hash`: the BLAKE3 hash of `data`, a 32-byte array that is a
/// function of `data` alone. Nothing further of the hash is stated.
#[verifier::external_body]
pub(crate) fn blake3_hash(data: &[u8]) -> (h: [u8; 32])
    ensures
        h@ == blake3_digest(data@),
{
    *blake3::hash(data).as_bytes()
}

/// `sha3::Keccak256::digest`: the Keccak-256 hash of `data`, a 32-byte
/// array that is a function of `data` alone. Nothing further of the hash is
/// stated.
#[verifier::external_body]
pub(crate) fn keccak256(data: &[u8]) -> (h: [u8; 32])
    ensures
        h@ == keccak256_digest(data@),
{
    <sha3::Keccak256 as sha3::Digest>::digest(data).into()
}

} // verus!
