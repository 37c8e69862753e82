//! ECDSA over secp256k1, through the `k256` crate.
//!
//! Keys, signatures and points cross this boundary as plain bytes: a secret
//! key as its 32-byte big-endian scalar, a signature as `r || s` (64 bytes)
//! with a separate recovery id, a public key as its 65-byte uncompressed
//! SEC1 encoding.

use vstd::prelude::*;

verus! {

/// The big-endian unsigned value of a byte string.
pub open spec fn be_value(b: Seq<u8>) -> nat
    decreases b.len(),
{
    if b.len() == 0 {
        0
    } else {
        be_value(b.drop_last()) * 256 + b.last() as nat
    }
}

/// The order of the secp256k1 group.
pub open spec fn curve_order() -> nat {
    0xFFFFFFFFFFFFFFFFFFFFFFFFFFFFFFFEBAAEDCE6AF48A03BBFD25E8CD0364141nat
}

/// The byte strings that `k256` accepts as a secret key: 24 to 32 bytes
/// (shorter ones are taken as left-padded with zeros) whose big-endian value
/// is a non-zero scalar below the group order.
pub open spec fn secret_key_accepted(b: Seq<u8>) -> bool {
    24 <= b.len() <= 32 && 0 < be_value(b) < curve_order()
}

/// The 64-byte strings that `k256` accepts as a signature: `r` and `s` are
/// both non-zero scalars below the group order.
pub open spec fn signature_scalars_valid(sig: Seq<u8>) -> bool {
    &&& sig.len() == 64
    &&& 0 < be_value(sig.take(32)) < curve_order()
    &&& 0 < be_value(sig.skip(32)) < curve_order()
}

/// The uncompressed SEC1 encoding (65 bytes) of the public key of a secret
/// key.
pub uninterp spec fn secp256k1_public_key(secret: Seq<u8>) -> Seq<u8>;

/// The deterministic (RFC 6979) recoverable ECDSA signature of a 32-byte
/// prehash: `r || s` with low `s`, and the recovery id; `None` when signing
/// fails.
pub uninterp spec fn ecdsa_sign_prehash(secret: Seq<u8>, prehash: Seq<u8>) -> Option<(Seq<u8>, u8)>;

/// The public key (uncompressed SEC1) recovered from a prehash, a signature
/// and a recovery id; `None` when recovery, or the check of the signature
/// against the recovered key, fails.
pub uninterp spec fn ecdsa_recover_prehash(prehash: Seq<u8>, sig: Seq<u8>, recovery_id: u8) -> Option<Seq<u8>>;

/// Why public-key recovery failed.
#[derive(Debug, PartialEq)]
pub enum RecoverError {
    /// The 64 bytes are not a valid `r || s` pair.
    MalformedSignature,
    /// No key could be recovered, or the signature does not verify under it.
    RecoveryFailed,
}

/// `k256::ecdsa::SigningKey::from_slice`, reduced to whether it accepts the
/// bytes; the claim is the check that its source makes (length 24 to 32,
/// left-padded, then a non-zero scalar below the group order).
#[verifier::external_body]
pub(crate) fn k256_secret_key_accepted(bytes: &[u8]) -> (r: bool)
    ensures
        r == secret_key_accepted(bytes@),
{
    k256::ecdsa::SigningKey::from_slice(bytes).is_ok()
}

/// `k256::ecdsa::SigningKey::verifying_key` of the key with these secret
/// bytes, as its uncompressed SEC1 encoding. The claim: the result is a
/// function of the secret alone. Nothing is claimed about the point.
#[verifier::external_body]
pub(crate) fn k256_public_key(secret: &[u8; 32]) -> (pk: [u8; 65])
    requires
        secret_key_accepted(secret@),
    ensures
        pk@ == secp256k1_public_key(secret@),
{
    let key = k256::ecdsa::SigningKey::from_slice(secret).unwrap();
    let point = key.verifying_key().to_encoded_point(false);
    let mut out = [0u8; 65];
    out.copy_from_slice(point.as_bytes());
    out
}

/// `k256::ecdsa::SigningKey::sign_prehash_recoverable` with the key of
/// these secret bytes. The claims: the result is a function of the secret
/// and the prehash (RFC 6979 signing is deterministic); a produced
/// signature is a valid `r || s` pair with a recovery id of at most 3; and
/// recovery from the same prehash, signature and recovery id gives back
/// this key's public key (the recovery id is computed for that purpose, and
/// the signature verifies under the key). Nothing is claimed about when
/// signing fails.
#[verifier::external_body]
pub(crate) fn k256_sign_prehash_recoverable(secret: &[u8; 32], prehash: &[u8; 32]) -> (r: Option<([u8; 64], u8)>)
    requires
        secret_key_accepted(secret@),
    ensures
        match ecdsa_sign_prehash(secret@, prehash@) {
            Some((sig, rid)) => r matches Some((s, v)) && s@ == sig && v == rid,
            None => r is None,
        },
        r matches Some((s, v)) ==> v <= 3 && signature_scalars_valid(s@) && ecdsa_recover_prehash(
            prehash@,
            s@,
            v,
        ) == Some(secp256k1_public_key(secret@)),
{
    let key = k256::ecdsa::SigningKey::from_slice(secret).unwrap();
    match key.sign_prehash_recoverable(prehash) {
        Ok((sig, rid)) => {
            let mut bytes = [0u8; 64];
            bytes.copy_from_slice(&sig.to_bytes());
            Some((bytes, rid.to_byte()))
        },
        Err(_) => None,
    }
}

/// `k256::ecdsa::VerifyingKey::recover_from_prehash`, after
/// `Signature::from_slice` and `RecoveryId::from_byte`, with the key as its
/// uncompressed SEC1 encoding. The claims: malformed `r || s` bytes are
/// refused as `MalformedSignature` (the check `from_slice` makes);
/// otherwise the result is a function of the prehash, the signature and the
/// recovery id.
#[verifier::external_body]
pub(crate) fn k256_recover_from_prehash(prehash: &[u8; 32], sig: &[u8; 64], rid: u8) -> (r: Result<[u8; 65], RecoverError>)
    requires
        rid <= 3,
    ensures
        !signature_scalars_valid(sig@) ==> r matches Err(RecoverError::MalformedSignature),
        signature_scalars_valid(sig@) ==> match ecdsa_recover_prehash(prehash@, sig@, rid) {
            Some(pk) => r matches Ok(p) && p@ == pk,
            None => r matches Err(RecoverError::RecoveryFailed),
        },
{
    let signature = match k256::ecdsa::Signature::from_slice(sig) {
        Ok(s) => s,
        Err(_) => return Err(RecoverError::MalformedSignature),
    };
    let id = k256::ecdsa::RecoveryId::from_byte(rid).unwrap();
    match k256::ecdsa::VerifyingKey::recover_from_prehash(prehash, &signature, id) {
        Ok(vk) => {
            let mut out = [0u8; 65];
            out.copy_from_slice(vk.to_encoded_point(false).as_bytes());
            Ok(out)
        },
        Err(_) => Err(RecoverError::RecoveryFailed),
    }
}

} // verus!
