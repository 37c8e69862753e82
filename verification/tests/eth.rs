use mandate_core::error::{Error, HexError};
use mandate_core::eth::{
    address_from_pubkey, address_from_secret, caip10_eip155, decode_hex_prefixed, parse_caip10_eip155,
    personal_sign_hash, recover_personal, sign_personal, verify_personal, SigningKey,
};

fn key() -> SigningKey {
    SigningKey::from_slice(&[1u8; 32]).unwrap()
}

fn hex_of(bytes: &[u8]) -> String {
    bytes.iter().map(|b| format!("{:02x}", b)).collect()
}

#[test]
fn sign_then_verify_roundtrip() {
    let sk = key();
    let caip = caip10_eip155(8453, &address_from_secret(&sk));
    let sig = sign_personal(b"hello mandate", &sk).unwrap();
    verify_personal(b"hello mandate", &sig, &caip).unwrap();
}

#[test]
fn verify_fails_on_tampered_message() {
    let sk = key();
    let caip = caip10_eip155(8453, &address_from_secret(&sk));
    let sig = sign_personal(b"hello mandate", &sk).unwrap();
    assert!(verify_personal(b"hello mAndate", &sig, &caip).is_err());
}

#[test]
fn verify_fails_on_wrong_wallet() {
    let sk = key();
    let other = SigningKey::from_slice(&[2u8; 32]).unwrap();
    let other_caip = caip10_eip155(8453, &address_from_secret(&other));
    let sig = sign_personal(b"hello", &sk).unwrap();
    assert!(matches!(verify_personal(b"hello", &sig, &other_caip).unwrap_err(), Error::BadSignature));
}

#[test]
fn caip10_roundtrip() {
    let addr = [0xabu8; 20];
    let s = caip10_eip155(1, &addr);
    let (chain, parsed) = parse_caip10_eip155(&s).unwrap();
    assert_eq!(chain, 1);
    assert_eq!(parsed, addr);
}

#[test]
fn caip10_rejects_wrong_namespace() {
    assert!(parse_caip10_eip155("solana:1:0xabcd").is_err());
}

#[test]
fn caip10_rejects_missing_0x() {
    assert!(parse_caip10_eip155("eip155:1:abcdef0123456789012345678901234567890123").is_err());
}

#[test]
fn caip10_rejects_wrong_address_length() {
    assert!(parse_caip10_eip155("eip155:1:0xabcd").is_err());
}

#[test]
fn personal_sign_hash_is_deterministic_and_input_dependent() {
    assert_eq!(personal_sign_hash(b"x"), personal_sign_hash(b"x"));
    assert_ne!(personal_sign_hash(b"x"), personal_sign_hash(b"y"));
}

#[test]
fn signature_is_65_bytes_hex_prefixed() {
    let sig = sign_personal(b"x", &key()).unwrap();
    assert!(sig.starts_with("0x"));
    assert_eq!(sig.len(), 2 + 65 * 2);
}


#[test]
fn personal_sign_hash_known_vector() {
    assert_eq!(
        hex_of(&personal_sign_hash(b"hello")),
        "50b2c43fd39106bafbba0da34fc430e1f91e3c96ea2acee2bc34119f92b37750"
    );
}

#[test]
fn address_of_secret_one() {
    let mut secret = [0u8; 32];
    secret[31] = 1;
    let sk = SigningKey::from_slice(&secret).unwrap();
    let addr = address_from_secret(&sk);
    assert_eq!(hex_of(&addr), "7e5f4552091a69125d5dfcb7b8c2659029395bdf");
    assert_eq!(address_from_pubkey(&sk.verifying_key()), addr);
    assert_eq!(
        caip10_eip155(8453, &addr),
        "eip155:8453:0x7e5f4552091a69125d5dfcb7b8c2659029395bdf"
    );
}

#[test]
fn short_secrets_are_left_padded() {
    let mut padded = [0u8; 32];
    padded[31] = 1;
    let mut short = [0u8; 24];
    short[23] = 1;
    let a = address_from_secret(&SigningKey::from_slice(&padded).unwrap());
    let b = address_from_secret(&SigningKey::from_slice(&short).unwrap());
    assert_eq!(a, b);
}

#[test]
fn secret_keys_out_of_range_are_refused() {
    for bytes in [vec![0u8; 32], vec![1u8; 23], vec![1u8; 33], vec![0xffu8; 32]] {
        match SigningKey::from_slice(&bytes) {
            Err(Error::Crypto(m)) => assert_eq!(m, "secret key: signature error"),
            Err(other) => panic!("unexpected error {:?}", other),
            Ok(_) => panic!("key must be refused"),
        }
    }
}

#[test]
fn recovered_signer_is_the_key_address() {
    let sk = key();
    let sig = sign_personal(b"payload", &sk).unwrap();
    assert_eq!(recover_personal(b"payload", &sig).unwrap(), address_from_secret(&sk));
    let bare = sig.trim_start_matches("0x").to_string();
    assert_eq!(recover_personal(b"payload", &bare).unwrap(), address_from_secret(&sk));
}

#[test]
fn signing_is_deterministic() {
    let sk = key();
    assert_eq!(sign_personal(b"same", &sk).unwrap(), sign_personal(b"same", &sk).unwrap());
    assert_ne!(sign_personal(b"same", &sk).unwrap(), sign_personal(b"other", &sk).unwrap());
}

#[test]
fn recover_rejects_short_signature() {
    match recover_personal(b"m", "0xabcd") {
        Err(e) => assert_eq!(e.message(), "crypto error: expected 65-byte signature, got 2"),
        Ok(_) => panic!("must fail"),
    }
}

#[test]
fn recover_rejects_unsupported_v() {
    let sig = format!("0x{}{}", "11".repeat(64), "1d");
    match recover_personal(b"m", &sig) {
        Err(Error::Crypto(m)) => assert_eq!(m, "unsupported v: 29"),
        other => panic!("unexpected {:?}", other),
    }
    let sig0 = format!("0x{}{}", "11".repeat(64), "00");
    match recover_personal(b"m", &sig0) {
        Err(Error::Crypto(m)) => assert_eq!(m, "unsupported v: 0"),
        other => panic!("unexpected {:?}", other),
    }
}

#[test]
fn recover_rejects_zero_scalars() {
    let sig = format!("0x{}{}", "00".repeat(64), "1b");
    match recover_personal(b"m", &sig) {
        Err(Error::Crypto(m)) => assert_eq!(m, "ecdsa sig: signature error"),
        other => panic!("unexpected {:?}", other),
    }
}

#[test]
fn recover_reports_bad_hex() {
    match recover_personal(b"m", "0xzz") {
        Err(Error::Hex(HexError::InvalidHexCharacter { c, index })) => {
            assert_eq!(c, 'z');
            assert_eq!(index, 0);
        }
        other => panic!("unexpected {:?}", other),
    }
    match recover_personal(b"m", "0xabc") {
        Err(e) => assert_eq!(e.message(), "Odd number of digits"),
        Ok(_) => panic!("must fail"),
    }
}

#[test]
fn decode_hex_prefixed_with_and_without_prefix() {
    assert_eq!(decode_hex_prefixed("0x00ff10").unwrap(), vec![0x00, 0xff, 0x10]);
    assert_eq!(decode_hex_prefixed("ABcd").unwrap(), vec![0xab, 0xcd]);
    assert_eq!(decode_hex_prefixed("").unwrap(), Vec::<u8>::new());
    match decode_hex_prefixed("0x0g") {
        Err(e) => assert_eq!(e.message(), "Invalid character 'g' at position 1"),
        Ok(_) => panic!("must fail"),
    }
}

#[test]
fn caip10_error_messages() {
    assert_eq!(
        parse_caip10_eip155("solana:1:0xabcd").unwrap_err().message(),
        "schema validation failed: expected eip155 CAIP-10 identifier, got: solana:1:0xabcd"
    );
    assert_eq!(
        parse_caip10_eip155("eip155:1:abcdef0123456789012345678901234567890123").unwrap_err().message(),
        "schema validation failed: address must start with 0x: abcdef0123456789012345678901234567890123"
    );
    assert_eq!(
        parse_caip10_eip155("eip155:1:0xabcd").unwrap_err().message(),
        "schema validation failed: expected 40 hex chars in address, got 4"
    );
    assert_eq!(
        parse_caip10_eip155("eip155:x:0xabcd").unwrap_err().message(),
        "schema validation failed: bad chain id: invalid digit found in string"
    );
    assert_eq!(
        parse_caip10_eip155("eip155::0xabcd").unwrap_err().message(),
        "schema validation failed: bad chain id: cannot parse integer from empty string"
    );
    assert_eq!(
        parse_caip10_eip155("eip155:18446744073709551616:0xabcd").unwrap_err().message(),
        "schema validation failed: bad chain id: number too large to fit in target type"
    );
    assert!(parse_caip10_eip155("eip155:1:0xab:cd").is_err());
}

#[test]
fn caip10_accepts_plus_sign_and_mixed_case() {
    let (chain, addr) =
        parse_caip10_eip155("eip155:+10:0xABABABABABABABABABABABABABABABABABABABAB").unwrap();
    assert_eq!(chain, 10);
    assert_eq!(addr, [0xabu8; 20]);
}

#[test]
fn verify_reports_malformed_wallet() {
    let sk = key();
    let sig = sign_personal(b"m", &sk).unwrap();
    assert!(matches!(verify_personal(b"m", &sig, "not-a-wallet"), Err(Error::Schema(_))));
}
