//! Verification helpers: the merchant side of the wire.
//!
//! `verify_mandate` performs the two checks every merchant must run before
//! accepting a mandate: (1) recompute the content-addressed `id` from the
//! canonical body and ensure it matches what is stored, and (2) verify the
//! buyer signature recovers to the wallet declared in `buyer.wallet`.
//! Attestation verification is in `attest`.

use vstd::prelude::*;
use crate::canonical::{canonical_body, canonical_body_of, float_message, mandate_id_for, mandate_id_of};
use crate::error::{Error, ErrorView, result_view};
use crate::eth::{personal_verification, verify_personal};
use crate::types::Mandate;

verus! {

/// The message of a stored id that differs from the recomputed one.
pub open spec fn id_mismatch_message(stored: Seq<char>, computed: Seq<char>) -> Seq<char> {
    "mandate id mismatch: stored="@ + stored + ", computed="@ + computed
}

/// The outcome of verifying a mandate (excluding attestation): the stored id
/// must be the id of the canonical body, and the buyer signature, by its
/// algorithm, must verify over that body against the buyer's wallet.
pub open spec fn mandate_verification(m: Mandate) -> Result<(), ErrorView> {
    match mandate_id_of(m) {
        Err(t) => Err(ErrorView::Canonical(float_message(t))),
        Ok(id) => if id != m.id@ {
            Err(ErrorView::Schema(id_mismatch_message(m.id@, id)))
        } else {
            let alg = m.buyer.sig.alg@;
            if alg == "eip191"@ {
                personal_verification(canonical_body_of(m)->Ok_0, m.buyer.sig.value@, m.buyer.wallet@)
            } else if alg == "ed25519-solana"@ {
                Err(ErrorView::NotImplemented("ed25519-solana verify"@))
            } else {
                Err(ErrorView::Schema("unknown buyer.sig.alg: "@ + alg))
            }
        },
    }
}

/// A mandate is accepted only when the id it stores is the id of its
/// canonical body (whatever its signature, a mandate whose content and
/// stored id disagree never verifies) and its buyer signature is an
/// EIP-191 signature over that canonical body by the buyer's wallet.
pub proof fn accepted_mandate_has_its_own_id(m: Mandate)
    requires
        mandate_verification(m) is Ok,
    ensures
        mandate_id_of(m) == Ok::<Seq<char>, Seq<char>>(m.id@),
        m.buyer.sig.alg@ == "eip191"@,
        canonical_body_of(m) matches Ok(body) && personal_verification(body, m.buyer.sig.value@, m.buyer.wallet@)
            is Ok,
{
    reveal_strlit("ed25519-solana");
    reveal_strlit("eip191");
}

/// A stored id other than the one computed from the canonical body is
/// refused as an id mismatch naming both ids, before any signature is
/// looked at, so a valid signature does not save it.
pub proof fn mismatched_id_is_refused(m: Mandate, computed: Seq<char>)
    requires
        mandate_id_of(m) == Ok::<Seq<char>, Seq<char>>(computed),
        computed != m.id@,
    ensures
        mandate_verification(m) == Err::<(), ErrorView>(ErrorView::Schema(id_mismatch_message(m.id@, computed))),
{
}

/// Verify a mandate end-to-end (excluding attestation).
pub fn verify_mandate(m: &Mandate) -> (r: Result<(), Error>)
    ensures
        result_view(r) == mandate_verification(*m),
        r is Ok ==> mandate_id_of(*m) == Ok::<Seq<char>, Seq<char>>(m.id@),
        mandate_id_of(*m) matches Ok(id) ==> (id != m.id@ ==> (r matches Err(e) && e@ == ErrorView::Schema(
            id_mismatch_message(m.id@, id),
        ))),
{
    let computed_id = mandate_id_for(m)?;
    if !(computed_id == m.id) {
        let mut msg = String::from_str("mandate id mismatch: stored=");
        msg.append(m.id.as_str());
        msg.append(", computed=");
        msg.append(computed_id.as_str());
        return Err(Error::Schema(msg));
    }
    let body = canonical_body(m)?;
    if m.buyer.sig.alg == String::from_str("eip191") {
        verify_personal(body.as_slice(), m.buyer.sig.value.as_str(), m.buyer.wallet.as_str())
    } else if m.buyer.sig.alg == String::from_str("ed25519-solana") {
        Err(Error::NotImplemented("ed25519-solana verify"))
    } else {
        let mut msg = String::from_str("unknown buyer.sig.alg: ");
        msg.append(m.buyer.sig.alg.as_str());
        Err(Error::Schema(msg))
    }
}

} // verus!
