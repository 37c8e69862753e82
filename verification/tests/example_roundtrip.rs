use mandate_core::canonical::{canonical_body, mandate_id_for};
use mandate_core::json::{Number, Value};
use mandate_core::types::{
    Agent, Approval, Attestation, Budget, Buyer, Intent, Lifecycle, Mandate, Money, Policies,
    Preferences, Signature, VaultGrant,
};

// The worked coffee example, written out field by field.
fn coffee() -> Mandate {
    let mut m = Mandate {
        version: "mandate/v0".to_string(),
        id: String::new(),
        buyer: Buyer {
            wallet: "eip155:8453:0x1111111111111111111111111111111111111111".to_string(),
            sig: Signature { alg: "eip191".to_string(), value: "0xPLACEHOLDER".to_string() },
        },
        intent: Intent {
            brief: "two bags of single-origin coffee beans, whole bean".to_string(),
            structured: Some(Value::Object(vec![
                ("category".to_string(), Value::String("coffee".to_string())),
                ("quantity".to_string(), Value::Number(Number::PosInt(2))),
                ("grind".to_string(), Value::String("whole".to_string())),
            ])),
        },
        budget: Budget {
            max_total: Money { amount: "60.00".to_string(), currency: "USD".to_string() },
            settlement_rails: vec!["x402".to_string(), "card".to_string()],
            fees_inclusive: true,
            tip_policy: None,
        },
        preferences: Some(Preferences {
            vault_pointer: Some("vault://buyer/coffee".to_string()),
            vault_grant: Some(VaultGrant { kind: "read".to_string(), value: "grant-123".to_string() }),
        }),
        policies: Some(Policies {
            fulfillment_by: Some("2026-05-10T00:00:00Z".to_string()),
            return_window_days_min: Some(14),
            substitutions: Some("ask".to_string()),
            shipping_destinations: Some(vec!["US".to_string()]),
            data_sharing: Some("minimal".to_string()),
        }),
        agent: Agent {
            runtime_id: "runtime-42".to_string(),
            attestation: Attestation {
                kind: "sev-snp".to_string(),
                vcek_chain: Some("BASE64_VCEK".to_string()),
                report: "BASE64_REPORT".to_string(),
                report_data_binding: "blake3(canonical_body)".to_string(),
            },
        },
        approval: Some(Approval {
            human_required_above: Some(Money { amount: "50.00".to_string(), currency: "USD".to_string() }),
            approval_sig: None,
        }),
        lifecycle: Lifecycle {
            created_at: "2026-05-03T12:00:00Z".to_string(),
            expires_at: "2026-05-04T12:00:00Z".to_string(),
            nonce: "n-0001".to_string(),
            bound_to_merchant: None,
            state: "open".to_string(),
        },
    };
    m.id = mandate_id_for(&m).unwrap();
    m
}

#[test]
fn example_coffee_id_matches_canonical_body() {
    let m = coffee();
    let computed = mandate_id_for(&m).expect("compute id");
    assert_eq!(m.id, computed, "\n  stored id:   {}\n  computed id: {}", m.id, computed);
}

#[test]
fn canonical_body_is_deterministic() {
    let m = coffee();
    let a = canonical_body(&m).unwrap();
    let b = canonical_body(&m).unwrap();
    assert_eq!(a, b);
}

#[test]
fn buyer_sig_value_does_not_affect_id() {
    let mut m = coffee();
    let before = mandate_id_for(&m).unwrap();
    m.buyer.sig = Signature { alg: "eip191".into(), value: "0xANY_OTHER_SIGNATURE".into() };
    let after = mandate_id_for(&m).unwrap();
    assert_eq!(before, after);
}

#[test]
fn bound_to_merchant_does_not_affect_id() {
    let mut m = coffee();
    let before = mandate_id_for(&m).unwrap();
    m.lifecycle.bound_to_merchant = Some("did:web:roaster.example.com".into());
    let after = mandate_id_for(&m).unwrap();
    assert_eq!(before, after);
}

#[test]
fn attestation_report_does_not_affect_id() {
    let mut m = coffee();
    let before = mandate_id_for(&m).unwrap();
    m.agent.attestation.report = "BASE64_REAL_SNP_REPORT_OF_ANY_LENGTH".into();
    m.agent.attestation.vcek_chain = Some("BASE64_REAL_VCEK_CHAIN".into());
    let after = mandate_id_for(&m).unwrap();
    assert_eq!(before, after);
}


#[test]
fn approval_sig_does_not_affect_id() {
    let mut m = coffee();
    let before = mandate_id_for(&m).unwrap();
    m.approval.as_mut().unwrap().approval_sig =
        Some(Signature { alg: "eip191".into(), value: "0x1234".into() });
    assert_eq!(before, mandate_id_for(&m).unwrap());
}

#[test]
fn hashed_fields_do_affect_id() {
    let before = mandate_id_for(&coffee()).unwrap();
    let mut a = coffee();
    a.intent.brief = "buy me a yacht".into();
    assert_ne!(before, mandate_id_for(&a).unwrap());
    let mut b = coffee();
    b.buyer.sig.alg = "ed25519-solana".into();
    assert_ne!(before, mandate_id_for(&b).unwrap());
    let mut c = coffee();
    c.agent.attestation.vcek_chain = None;
    assert_ne!(before, mandate_id_for(&c).unwrap());
}

#[test]
fn canonical_body_nulls_the_unhashed_fields() {
    let mut m = coffee();
    m.preferences = None;
    m.policies = None;
    m.approval = None;
    m.intent.structured = None;
    m.agent.attestation.vcek_chain = None;
    m.id = "mandate://b3:x".into();
    let body = String::from_utf8(canonical_body(&m).unwrap()).unwrap();
    assert_eq!(
        body,
        [
            "{\"agent\":{\"attestation\":{\"report\":null,\"report_data_binding\":\"blake3(canonical_body)\",",
            "\"type\":\"sev-snp\"},\"runtime_id\":\"runtime-42\"},",
            "\"budget\":{\"fees_inclusive\":true,\"max_total\":{\"amount\":\"60.00\",\"currency\":\"USD\"},",
            "\"settlement_rails\":[\"x402\",\"card\"]},",
            "\"buyer\":{\"sig\":{\"alg\":\"eip191\",\"value\":null},",
            "\"wallet\":\"eip155:8453:0x1111111111111111111111111111111111111111\"},",
            "\"id\":null,",
            "\"intent\":{\"brief\":\"two bags of single-origin coffee beans, whole bean\"},",
            "\"lifecycle\":{\"bound_to_merchant\":null,\"created_at\":\"2026-05-03T12:00:00Z\",",
            "\"expires_at\":\"2026-05-04T12:00:00Z\",\"nonce\":\"n-0001\",\"state\":\"open\"},",
            "\"version\":\"mandate/v0\"}",
        ]
        .concat()
    );
}

#[test]
fn float_in_structured_intent_is_refused() {
    let mut m = coffee();
    m.intent.structured = Some(Value::Object(vec![(
        "weight_kg".to_string(),
        Value::Number(Number::Float("0.5".to_string())),
    )]));
    let err = mandate_id_for(&m).unwrap_err();
    assert_eq!(
        err.message(),
        "canonicalization error: non-integer numbers are not allowed in mandate v0: 0.5"
    );
    assert!(canonical_body(&m).is_err());
}

#[test]
fn deep_float_in_structured_intent_is_refused() {
    let mut m = coffee();
    m.intent.structured = Some(Value::Array(vec![Value::Object(vec![(
        "x".to_string(),
        Value::Array(vec![Value::Number(Number::Float("1e-3".to_string()))]),
    )])]));
    assert!(canonical_body(&m).is_err());
    m.intent.structured = Some(Value::Array(vec![Value::Number(Number::NegInt(-3))]));
    assert!(canonical_body(&m).is_ok());
}

#[test]
fn example_coffee_id_is_pinned() {
    let m = coffee();
    let computed = mandate_id_for(&m).expect("compute id");
    assert_eq!(computed, "mandate://b3:ikno4k7pcvqm54lynud3i4w7giror3bxln3cg7ap7oi737lh7mbq");
}
