use mandate_core::canonical::mandate_id_for;
use mandate_core::error::Error;
use mandate_core::eth::{address_from_secret, caip10_eip155, SigningKey};
use mandate_core::sign::{sign_approval, sign_buyer_body, sign_buyer_eip191};
use mandate_core::attest::verify_attestation;
use mandate_core::types::{
    Agent, Attestation, Budget, Buyer, Intent, Lifecycle, Mandate, Money, Signature,
};
use mandate_core::verify::verify_mandate;

// A worked example with placeholder signature data.
fn example() -> Mandate {
    let mut m = Mandate {
        version: "mandate/v0".to_string(),
        id: String::new(),
        buyer: Buyer {
            wallet: "eip155:8453:0x2222222222222222222222222222222222222222".to_string(),
            sig: Signature { alg: "eip191".to_string(), value: "0xPLACEHOLDER".to_string() },
        },
        intent: Intent { brief: "a pound of coffee".to_string(), structured: None },
        budget: Budget {
            max_total: Money { amount: "25.00".to_string(), currency: "USD".to_string() },
            settlement_rails: vec!["x402".to_string()],
            fees_inclusive: true,
            tip_policy: Some("none".to_string()),
        },
        preferences: None,
        policies: None,
        agent: Agent {
            runtime_id: "runtime-7".to_string(),
            attestation: Attestation {
                kind: "sev-snp".to_string(),
                vcek_chain: None,
                report: "BASE64_REPORT".to_string(),
                report_data_binding: "blake3(canonical_body)".to_string(),
            },
        },
        approval: None,
        lifecycle: Lifecycle {
            created_at: "2026-05-03T12:00:00Z".to_string(),
            expires_at: "2026-05-04T12:00:00Z".to_string(),
            nonce: "n-7".to_string(),
            bound_to_merchant: None,
            state: "open".to_string(),
        },
    };
    m.id = mandate_id_for(&m).unwrap();
    m
}

fn key(seed: u8) -> SigningKey {
    SigningKey::from_slice(&[seed; 32]).unwrap()
}

/// Reset a mandate to "ready to sign" with a fresh wallet we control.
fn rebind_for_signing(m: &mut Mandate, sk: &SigningKey) {
    m.buyer.wallet = caip10_eip155(8453, &address_from_secret(sk));
    m.buyer.sig.alg = "eip191".to_string();
    m.buyer.sig.value = String::new();
    m.id = mandate_id_for(m).unwrap();
}

#[test]
fn sign_and_verify_a_real_mandate_end_to_end() {
    let mut m = example();
    let sk = key(7);
    rebind_for_signing(&mut m, &sk);
    sign_buyer_eip191(&mut m, &sk).unwrap();
    verify_mandate(&m).unwrap();
}

#[test]
fn verify_rejects_tampered_intent() {
    let mut m = example();
    let sk = key(7);
    rebind_for_signing(&mut m, &sk);
    sign_buyer_eip191(&mut m, &sk).unwrap();

    m.intent.brief = "buy me a yacht".to_string();

    let err = verify_mandate(&m).unwrap_err();
    assert!(err.message().contains("id mismatch"));
}

#[test]
fn verify_rejects_wrong_signer() {
    let mut m = example();
    let sk = key(7);
    let other = key(8);

    // Wallet says "other" but the signature is by sk.
    m.buyer.wallet = caip10_eip155(8453, &address_from_secret(&other));
    m.buyer.sig.alg = "eip191".to_string();
    m.buyer.sig.value = String::new();
    m.id = mandate_id_for(&m).unwrap();
    sign_buyer_eip191(&mut m, &sk).unwrap();

    assert!(matches!(verify_mandate(&m).unwrap_err(), Error::BadSignature));
}

#[test]
fn signing_does_not_perturb_id() {
    let mut m = example();
    let sk = key(7);
    rebind_for_signing(&mut m, &sk);
    let id_before_sign = m.id.clone();
    sign_buyer_eip191(&mut m, &sk).unwrap();
    let id_after_sign = mandate_id_for(&m).unwrap();
    assert_eq!(id_before_sign, id_after_sign);
}

#[test]
fn example_with_placeholder_signature_does_not_verify() {
    let m = example();
    assert!(verify_mandate(&m).is_err());
}


#[test]
fn signing_sets_the_algorithm_and_a_hex_signature() {
    let mut m = example();
    let sk = key(9);
    m.buyer.sig.alg = "something-else".to_string();
    sign_buyer_eip191(&mut m, &sk).unwrap();
    assert_eq!(m.buyer.sig.alg, "eip191");
    assert!(m.buyer.sig.value.starts_with("0x"));
    assert_eq!(m.buyer.sig.value.len(), 132);
}

#[test]
fn verify_reports_id_mismatch_text() {
    let mut m = example();
    let computed = m.id.clone();
    m.id = "mandate://b3:wrong".to_string();
    assert_eq!(
        verify_mandate(&m).unwrap_err().message(),
        format!("schema validation failed: mandate id mismatch: stored=mandate://b3:wrong, computed={}", computed)
    );
}

#[test]
fn verify_other_algorithms() {
    let mut m = example();
    m.buyer.sig.alg = "ed25519-solana".to_string();
    m.id = mandate_id_for(&m).unwrap();
    assert_eq!(
        verify_mandate(&m).unwrap_err().message(),
        "not implemented yet: ed25519-solana verify"
    );
    let mut n = example();
    n.buyer.sig.alg = "rsa".to_string();
    n.id = mandate_id_for(&n).unwrap();
    assert_eq!(
        verify_mandate(&n).unwrap_err().message(),
        "schema validation failed: unknown buyer.sig.alg: rsa"
    );
}

#[test]
fn placeholder_signature_is_a_hex_error() {
    let m = example();
    assert!(matches!(verify_mandate(&m).unwrap_err(), Error::Hex(_)));
}

#[test]
fn stubs_report_not_implemented() {
    let m = example();
    assert_eq!(sign_buyer_body(&m, &[1u8; 32]).unwrap_err().message(), "not implemented yet: sign_buyer_body");
    assert_eq!(
        sign_approval("mandate://b3:x", "quote-1", b"{}", &[1u8; 32]).unwrap_err().message(),
        "not implemented yet: sign_approval"
    );
    assert_eq!(verify_attestation(&m).unwrap_err().message(), "not implemented yet: verify_attestation");
    assert_eq!(Error::BadSignature.message(), "signature verification failed");
    assert_eq!(
        Error::BadAttestation("x".to_string()).message(),
        "attestation verification failed: x"
    );
    assert_eq!(Error::Json("eof".to_string()).message(), "eof");
}
