//! Signing helpers for buyer wallet signatures and approval signatures.

use vstd::prelude::*;
use crate::canonical::{canonical_body, canonical_body_of, float_message, mandate_id_of};
use crate::error::{Error, ErrorView};
use crate::eth::{
    caip10_text, eth_address, personal_digest, unsupported_v_message, personal_signature_text, personal_signature_verifies,
    sign_personal, SigningKey,
};
use crate::properties::canonical_body_ignores_unhashed_fields;
use crate::secp256k1::{ecdsa_sign_prehash, secp256k1_public_key};
use crate::types::{Mandate, Signature};
use crate::verify::mandate_verification;

verus! {

/// Sign the buyer body with a raw wallet secret. Not implemented yet:
/// always reports so.
pub fn sign_buyer_body(_m: &Mandate, _wallet_secret: &[u8]) -> (r: Result<Signature, Error>)
    ensures
        r matches Err(e) && e@ == ErrorView::NotImplemented("sign_buyer_body"@),
{
    Err(Error::NotImplemented("sign_buyer_body"))
}

/// Sign a merchant quote as the buyer's approval. Not implemented yet:
/// always reports so.
pub fn sign_approval(
    _mandate_id: &str,
    _quote_id: &str,
    _quote_total_canonical: &[u8],
    _wallet_secret: &[u8],
) -> (r: Result<Signature, Error>)
    ensures
        r matches Err(e) && e@ == ErrorView::NotImplemented("sign_approval"@),
{
    Err(Error::NotImplemented("sign_approval"))
}

/// Every field of `b` equals that of `a`, except the buyer signature.
pub open spec fn same_but_buyer_signature(a: Mandate, b: Mandate) -> bool {
    &&& a.version == b.version
    &&& a.id == b.id
    &&& a.buyer.wallet == b.buyer.wallet
    &&& a.intent == b.intent
    &&& a.budget == b.budget
    &&& a.preferences == b.preferences
    &&& a.policies == b.policies
    &&& a.agent == b.agent
    &&& a.approval == b.approval
    &&& a.lifecycle == b.lifecycle
}

/// Replacing the buyer signature value, with the algorithm left as it was,
/// changes neither the canonical body nor the id.
pub proof fn signing_keeps_canonical_body(a: Mandate, b: Mandate)
    requires
        same_but_buyer_signature(a, b),
        a.buyer.sig.alg@ == b.buyer.sig.alg@,
    ensures
        canonical_body_of(a) == canonical_body_of(b),
        mandate_id_of(a) == mandate_id_of(b),
{
    canonical_body_ignores_unhashed_fields(a, b);
}

/// The wallet is a CAIP-10 `eip155` id, on some chain, of the 20-byte
/// address of the key with this secret.
pub open spec fn wallet_of_key(wallet: Seq<char>, secret: Seq<u8>) -> bool {
    let address = eth_address(secp256k1_public_key(secret));
    &&& address.len() == 20
    &&& exists|chain: u64| wallet == #[trigger] caip10_text(chain, address)
}

/// Sign the mandate's canonical body with the buyer's EVM wallet key
/// (EIP-191 `personal_sign`) and store the signature, with algorithm
/// `eip191`, as the buyer signature. On failure the mandate is unchanged.
/// When the stored id is the mandate's id, the algorithm already was
/// `eip191` and the wallet is the key's own, the signed mandate verifies.
pub fn sign_buyer_eip191(m: &mut Mandate, secret: &SigningKey) -> (r: Result<(), Error>)
    ensures
        match canonical_body_of(*old(m)) {
            Err(t) => r matches Err(e) && e@ == ErrorView::Canonical(float_message(t)) && *final(m) == *old(m),
            Ok(body) => match ecdsa_sign_prehash(secret@, personal_digest(body)) {
                None => r matches Err(e) && e@ == ErrorView::Crypto("ecdsa sign: signature error"@)
                    && *final(m) == *old(m),
                Some((sig, rid)) => if rid <= 1 {
                    &&& r is Ok
                    &&& same_but_buyer_signature(*old(m), *final(m))
                    &&& final(m).buyer.sig.alg@ == "eip191"@
                    &&& final(m).buyer.sig.value@ == personal_signature_text(sig, rid)
                } else {
                    r matches Err(e) && e@ == ErrorView::Crypto(unsupported_v_message(rid)) && *final(m) == *old(m)
                },
            },
        },
        ({
            &&& r is Ok
            &&& old(m).buyer.sig.alg@ == "eip191"@
            &&& mandate_id_of(*old(m)) == Ok::<Seq<char>, Seq<char>>(old(m).id@)
            &&& wallet_of_key(old(m).buyer.wallet@, secret@)
        }) ==> mandate_verification(*final(m)) == Ok::<(), ErrorView>(()),
{
    let body = canonical_body(m)?;
    let sig = sign_personal(body.as_slice(), secret)?;
    m.buyer.sig.alg = String::from_str("eip191");
    m.buyer.sig.value = sig;
    proof {
        let before = *old(m);
        let digest = personal_digest(body@);
        if before.buyer.sig.alg@ == "eip191"@ && mandate_id_of(before) == Ok::<Seq<char>, Seq<char>>(before.id@)
            && wallet_of_key(before.buyer.wallet@, secret@) {
            if let Some((sg, rid)) = ecdsa_sign_prehash(secret@, digest) {
                if rid <= 1 {
                    signing_keeps_canonical_body(before, *m);
                    let pk = secp256k1_public_key(secret@);
                    let chain = choose|chain: u64| before.buyer.wallet@ == #[trigger] caip10_text(chain, eth_address(pk));
                    personal_signature_verifies(body@, sg, rid, pk, chain, eth_address(pk));
                }
            }
        }
    }
    Ok(())
}

} // verus!
