//! EVM (`eip155` / EIP-191) crypto helpers: sign, recover, verify, address
//! derivation, and CAIP-10 parsing.
//!
//! Mandate v0 uses EIP-191 `personal_sign` over the canonical body for
//! buyer wallets on EVM chains. The signature is encoded as the standard
//! 65-byte `r || s || v` form, hex-prefixed with `0x`.

use vstd::prelude::*;
use crate::digest::{keccak256, keccak256_digest};
use crate::error::{Error, ErrorView, result_view};
use crate::hexcodec::{hex_decode, hex_decoded, hex_encode, hex_lower, lemma_hex_lower_chars};
use crate::secp256k1::{
    ecdsa_recover_prehash, ecdsa_sign_prehash, k256_public_key, k256_recover_from_prehash,
    k256_secret_key_accepted, k256_sign_prehash_recoverable, secp256k1_public_key,
    secret_key_accepted, signature_scalars_valid, RecoverError,
};
use crate::text::{
    decimal, decimal_text, digits_value, int_error_message, lemma_decimal_len_mono, lemma_digits_value_decimal, int_error_text, joined, lemma_decimal_digits,
    lemma_parse_decimal_text, lemma_split_on_prefix, lemma_split_on_whole, parse_u64,
    parse_u64_text, push_decimal, push_decimal_text, split_chars, split_on, strip_0x,
    strip_prefix_0x,
};

verus! {

/// A 20-byte Ethereum address.
pub type Address = [u8; 20];

/// The EIP-191 `personal_sign` message: `"\x19Ethereum Signed Message:\n"`,
/// the decimal length of the message, then the message.
pub open spec fn personal_message(m: Seq<u8>) -> Seq<u8> {
    vstd::utf8::encode_utf8("\x19Ethereum Signed Message:\n"@) + decimal(m.len()) + m
}

/// The EIP-191 prehash: the Keccak-256 hash of the `personal_sign` message.
pub open spec fn personal_digest(m: Seq<u8>) -> Seq<u8> {
    keccak256_digest(personal_message(m))
}

/// The Ethereum address of an uncompressed public key: the last 20 bytes of
/// the Keccak-256 hash of the key without its leading tag byte.
pub open spec fn eth_address(pk: Seq<u8>) -> Seq<u8> {
    keccak256_digest(pk.skip(1)).skip(12)
}

/// Compute the EIP-191 `personal_sign` prehash:
/// `keccak256("\x19Ethereum Signed Message:\n" || len(message) || message)`.
pub fn personal_sign_hash(message: &[u8]) -> (h: [u8; 32])
    ensures
        h@ == personal_digest(message@),
{
    let mut buf: Vec<u8> = Vec::new();
    crate::text::push_bytes(&mut buf, "\x19Ethereum Signed Message:\n".as_bytes());
    push_decimal(&mut buf, message.len() as u64);
    crate::text::push_bytes(&mut buf, message);
    keccak256(buf.as_slice())
}

/// A secp256k1 secret key.
pub struct SigningKey {
    secret: [u8; 32],
}

/// A secp256k1 public key.
pub struct VerifyingKey {
    sec1: [u8; 65],
}

impl View for SigningKey {
    type V = Seq<u8>;

    /// The 32-byte big-endian secret scalar.
    closed spec fn view(&self) -> Seq<u8> {
        self.secret@
    }
}

impl View for VerifyingKey {
    type V = Seq<u8>;

    /// The uncompressed SEC1 encoding.
    closed spec fn view(&self) -> Seq<u8> {
        self.sec1@
    }
}

/// Shorter secret bytes, taken with leading zeros to 32 bytes.
pub open spec fn left_pad_32(b: Seq<u8>) -> Seq<u8> {
    Seq::new((32 - b.len()) as nat, |i: int| 0u8) + b
}

proof fn lemma_be_value_zeros(n: nat)
    ensures
        crate::secp256k1::be_value(Seq::new(n, |i: int| 0u8)) == 0,
    decreases n,
{
    if n > 0 {
        assert(Seq::new(n, |i: int| 0u8).drop_last() =~= Seq::new((n - 1) as nat, |i: int| 0u8));
        lemma_be_value_zeros((n - 1) as nat);
    }
}

proof fn lemma_be_value_pad(z: Seq<u8>, b: Seq<u8>)
    requires
        crate::secp256k1::be_value(z) == 0,
    ensures
        crate::secp256k1::be_value(z + b) == crate::secp256k1::be_value(b),
    decreases b.len(),
{
    if b.len() == 0 {
        assert(z + b =~= z);
    } else {
        assert((z + b).drop_last() =~= z + b.drop_last());
        lemma_be_value_pad(z, b.drop_last());
    }
}

impl SigningKey {
    #[verifier::type_invariant]
    spec fn inv(self) -> bool {
        secret_key_accepted(self.secret@)
    }

    /// A signing key from its big-endian secret scalar (24 to 32 bytes).
    pub fn from_slice(bytes: &[u8]) -> (r: Result<SigningKey, Error>)
        ensures
            r is Ok <==> secret_key_accepted(bytes@),
            r matches Ok(k) ==> k@ == left_pad_32(bytes@),
            r matches Err(e) ==> e@ == ErrorView::Crypto("secret key: signature error"@),
    {
        if !k256_secret_key_accepted(bytes) {
            return Err(Error::Crypto(String::from_str("secret key: signature error")));
        }
        let mut secret = [0u8; 32];
        let offset: usize = 32 - bytes.len();
        let mut i: usize = 0;
        while i < bytes.len()
            invariant
                i <= bytes.len(),
                offset + bytes.len() == 32,
                forall|k: int| 0 <= k < offset ==> secret@[k] == 0u8,
                forall|k: int| 0 <= k < i ==> secret@[offset + k] == bytes@[k],
                secret@.len() == 32,
            decreases bytes.len() - i,
        {
            secret[offset + i] = bytes[i];
            i = i + 1;
        }
        proof {
            assert(secret@ =~= left_pad_32(bytes@));
            lemma_be_value_zeros((32 - bytes.len()) as nat);
            lemma_be_value_pad(Seq::new((32 - bytes.len()) as nat, |i: int| 0u8), bytes@);
        }
        Ok(SigningKey { secret })
    }

    /// The public key of this secret key.
    pub fn verifying_key(&self) -> (pk: VerifyingKey)
        ensures
            pk@ == secp256k1_public_key(self@),
    {
        proof {
            use_type_invariant(self);
        }
        VerifyingKey { sec1: k256_public_key(&self.secret) }
    }
}

/// Derive an Ethereum address from a public key
/// (last 20 bytes of `keccak256(uncompressed_pubkey[1..])`).
pub fn address_from_pubkey(pk: &VerifyingKey) -> (a: Address)
    ensures
        a@ == eth_address(pk@),
{
    let (_, rest) = pk.sec1.as_slice().split_at(1);
    let h = keccak256(rest);
    let mut addr = [0u8; 20];
    let mut i: usize = 0;
    while i < 20
        invariant
            i <= 20,
            h@.len() == 32,
            addr@.len() == 20,
            forall|k: int| 0 <= k < i ==> addr@[k] == h@[12 + k],
        decreases 20 - i,
    {
        addr[i] = h[12 + i];
        i = i + 1;
    }
    assert(rest@ =~= pk@.skip(1));
    assert(addr@ =~= h@.skip(12));
    addr
}

/// Convenience: derive an address from a secret key.
pub fn address_from_secret(secret: &SigningKey) -> (a: Address)
    ensures
        a@ == eth_address(secp256k1_public_key(secret@)),
{
    address_from_pubkey(&secret.verifying_key())
}

/// A CAIP-10 `eip155` identifier: `eip155:<chain id>:0x<address in
/// lower-case hex>`.
pub open spec fn caip10_text(chain_id: u64, address: Seq<u8>) -> Seq<char> {
    "eip155:"@ + decimal_text(chain_id as nat) + ":0x"@ + hex_lower(address)
}

/// Render an address as a CAIP-10 `eip155` identifier.
pub fn caip10_eip155(chain_id: u64, address: &Address) -> (s: String)
    ensures
        s@ == caip10_text(chain_id, address@),
{
    let mut s = String::from_str("eip155:");
    push_decimal_text(&mut s, chain_id);
    s.append(":0x");
    let h = hex_encode(address.as_slice());
    s.append(h.as_str());
    s
}

} // verus!

verus! {

/// The outcome of parsing a CAIP-10 `eip155` identifier.
pub open spec fn caip10_parse(s: Seq<char>) -> Result<(u64, Seq<u8>), ErrorView> {
    let parts = split_on(s, ':');
    if parts.len() != 3 || parts[0] != "eip155"@ {
        Err(ErrorView::Schema("expected eip155 CAIP-10 identifier, got: "@ + s))
    } else {
        match parse_u64_text(parts[1]) {
            Err(k) => Err(ErrorView::Schema("bad chain id: "@ + int_error_text(k))),
            Ok(chain) => match strip_0x(parts[2]) {
                None => Err(ErrorView::Schema("address must start with 0x: "@ + parts[2])),
                Some(a) => {
                    let bytes = vstd::utf8::encode_utf8(a);
                    if bytes.len() != 40 {
                        Err(
                            ErrorView::Schema(
                                "expected 40 hex chars in address, got "@ + decimal_text(bytes.len()),
                            ),
                        )
                    } else {
                        match hex_decoded(bytes) {
                            Err(e) => Err(ErrorView::Hex(e)),
                            Ok(addr) => Ok((chain, addr)),
                        }
                    }
                },
            },
        }
    }
}

proof fn lemma_hex_decoded_len(d: Seq<u8>)
    ensures
        hex_decoded(d) matches Ok(b) ==> b.len() == d.len() / 2,
{
}

/// Parse a CAIP-10 `eip155` identifier into `(chain_id, address)`.
pub fn parse_caip10_eip155(s: &str) -> (r: Result<(u64, Address), Error>)
    ensures
        match caip10_parse(s@) {
            Ok((chain, addr)) => r matches Ok((c, a)) && c == chain && a@ == addr,
            Err(e) => r matches Err(x) && x@ == e,
        },
{
    let parts = split_chars(s, ':');
    let ghost sp = split_on(s@, ':');
    let eip = String::from_str("eip155");
    if parts.len() != 3 || !(parts[0] == eip) {
        return Err(Error::Schema(joined("expected eip155 CAIP-10 identifier, got: ", s)));
    }
    assert(parts@[0]@ == sp[0]);
    assert(parts@[1]@ == sp[1]);
    assert(parts@[2]@ == sp[2]);
    let chain = match parse_u64(parts[1].as_str()) {
        Ok(c) => c,
        Err(k) => {
            let detail = int_error_message(&k);
            return Err(Error::Schema(joined("bad chain id: ", detail.as_str())));
        },
    };
    let addr_str = match strip_prefix_0x(parts[2].as_str()) {
        Some(a) => a,
        None => {
            return Err(Error::Schema(joined("address must start with 0x: ", parts[2].as_str())));
        },
    };
    let addr_bytes = addr_str.as_str().as_bytes();
    if addr_bytes.len() != 40 {
        let mut m = String::from_str("expected 40 hex chars in address, got ");
        push_decimal_text(&mut m, addr_bytes.len() as u64);
        return Err(Error::Schema(m));
    }
    let bytes = match hex_decode(addr_bytes) {
        Ok(b) => b,
        Err(e) => {
            return Err(Error::Hex(e));
        },
    };
    proof {
        lemma_hex_decoded_len(addr_bytes@);
    }
    let mut addr = [0u8; 20];
    let mut i: usize = 0;
    while i < 20
        invariant
            i <= 20,
            bytes@.len() == 20,
            addr@.len() == 20,
            forall|k: int| 0 <= k < i ==> addr@[k] == bytes@[k],
        decreases 20 - i,
    {
        addr[i] = bytes[i];
        i = i + 1;
    }
    assert(addr@ =~= bytes@);
    Ok((chain, addr))
}

/// Hexadecimal text with an optional `0x` prefix, decoded.
pub open spec fn hex_prefixed(s: Seq<char>) -> Result<Seq<u8>, ErrorView> {
    let digits = match strip_0x(s) {
        Some(t) => t,
        None => s,
    };
    match hex_decoded(vstd::utf8::encode_utf8(digits)) {
        Ok(b) => Ok(b),
        Err(e) => Err(ErrorView::Hex(e)),
    }
}

/// Decode hexadecimal text, with or without a `0x` prefix.
pub fn decode_hex_prefixed(s: &str) -> (r: Result<Vec<u8>, Error>)
    ensures
        match hex_prefixed(s@) {
            Ok(b) => r matches Ok(v) && v@ == b,
            Err(e) => r matches Err(x) && x@ == e,
        },
{
    let digits = match strip_prefix_0x(s) {
        Some(t) => t,
        None => String::from_str(s),
    };
    match hex_decode(digits.as_str().as_bytes()) {
        Ok(v) => Ok(v),
        Err(e) => Err(Error::Hex(e)),
    }
}

/// The outcome of recovering the signer of an EIP-191 signature.
pub open spec fn recover_outcome(message: Seq<u8>, sig_hex: Seq<char>) -> Result<Seq<u8>, ErrorView> {
    match hex_prefixed(sig_hex) {
        Err(e) => Err(e),
        Ok(bytes) => if bytes.len() != 65 {
            Err(ErrorView::Crypto("expected 65-byte signature, got "@ + decimal_text(bytes.len())))
        } else {
            let v = bytes[64];
            let rid = ((v as int - 27) % 256) as u8;
            if rid > 1 {
                Err(ErrorView::Crypto("unsupported v: "@ + decimal_text(v as nat)))
            } else if !signature_scalars_valid(bytes.take(64)) {
                Err(ErrorView::Crypto("ecdsa sig: signature error"@))
            } else {
                match ecdsa_recover_prehash(personal_digest(message), bytes.take(64), rid) {
                    None => Err(ErrorView::Crypto("recover: signature error"@)),
                    Some(pk) => Ok(eth_address(pk)),
                }
            }
        },
    }
}

/// Recover the signer's Ethereum address from an EIP-191 signature.
pub fn recover_personal(message: &[u8], sig_hex: &str) -> (r: Result<Address, Error>)
    ensures
        match recover_outcome(message@, sig_hex@) {
            Ok(a) => r matches Ok(x) && x@ == a,
            Err(e) => r matches Err(x) && x@ == e,
        },
{
    let bytes = decode_hex_prefixed(sig_hex)?;
    if bytes.len() != 65 {
        let mut m = String::from_str("expected 65-byte signature, got ");
        push_decimal_text(&mut m, bytes.len() as u64);
        return Err(Error::Crypto(m));
    }
    let v = bytes[64];
    let recovery_id_byte = v.wrapping_sub(27);
    assert(recovery_id_byte == ((v as int - 27) % 256) as u8) by (bit_vector)
        requires recovery_id_byte == v.wrapping_sub(27);
    if recovery_id_byte > 1 {
        let mut m = String::from_str("unsupported v: ");
        push_decimal_text(&mut m, v as u64);
        return Err(Error::Crypto(m));
    }
    let mut sig = [0u8; 64];
    let mut i: usize = 0;
    while i < 64
        invariant
            i <= 64,
            bytes@.len() == 65,
            sig@.len() == 64,
            forall|k: int| 0 <= k < i ==> sig@[k] == bytes@[k],
        decreases 64 - i,
    {
        sig[i] = bytes[i];
        i = i + 1;
    }
    assert(sig@ =~= bytes@.take(64));
    let prehash = personal_sign_hash(message);
    match k256_recover_from_prehash(&prehash, &sig, recovery_id_byte) {
        Ok(pk) => Ok(address_from_pubkey(&VerifyingKey { sec1: pk })),
        Err(RecoverError::MalformedSignature) => Err(Error::Crypto(String::from_str("ecdsa sig: signature error"))),
        Err(RecoverError::RecoveryFailed) => Err(Error::Crypto(String::from_str("recover: signature error"))),
    }
}

/// The outcome of checking an EIP-191 signature against a CAIP-10 wallet.
pub open spec fn personal_verification(message: Seq<u8>, sig_hex: Seq<char>, expected_caip10: Seq<char>) -> Result<(), ErrorView> {
    match recover_outcome(message, sig_hex) {
        Err(e) => Err(e),
        Ok(recovered) => match caip10_parse(expected_caip10) {
            Err(e) => Err(e),
            Ok((_chain, expected)) => if recovered == expected {
                Ok(())
            } else {
                Err(ErrorView::BadSignature)
            },
        },
    }
}

/// Verify that an EIP-191 signature was produced by the wallet whose
/// address matches `expected_caip10` (a CAIP-10 `eip155:<chain>:0x...` id).
pub fn verify_personal(message: &[u8], sig_hex: &str, expected_caip10: &str) -> (r: Result<(), Error>)
    ensures
        result_view(r) == personal_verification(message@, sig_hex@, expected_caip10@),
{
    let recovered = recover_personal(message, sig_hex)?;
    let (_chain, expected) = parse_caip10_eip155(expected_caip10)?;
    if !crate::text::bytes_equal(recovered.as_slice(), expected.as_slice()) {
        return Err(Error::BadSignature);
    }
    Ok(())
}

/// The `0x`-prefixed hex of a 65-byte `r || s || v` signature, with
/// `v = recovery id + 27`.
pub open spec fn personal_signature_text(sig: Seq<u8>, rid: u8) -> Seq<char> {
    "0x"@ + hex_lower(sig.push((rid + 27) as u8))
}

/// The message of a signature whose recovery id makes `v` neither 27 nor
/// 28 (the same text recovery gives for it).
pub open spec fn unsupported_v_message(rid: u8) -> Seq<char> {
    "unsupported v: "@ + decimal_text((rid + 27) as nat)
}

/// Sign a message under EIP-191 `personal_sign`. Returns a `0x`-prefixed
/// 65-byte hex signature (`r || s || v`, where `v` is 27 or 28); a
/// signature whose recovery id would make `v` anything else is refused.
pub fn sign_personal(message: &[u8], secret: &SigningKey) -> (r: Result<String, Error>)
    ensures
        match ecdsa_sign_prehash(secret@, personal_digest(message@)) {
            Some((sig, rid)) => if rid <= 1 {
                r matches Ok(s) && s@ == personal_signature_text(sig, rid)
            } else {
                r matches Err(e) && e@ == ErrorView::Crypto(unsupported_v_message(rid))
            },
            None => r matches Err(e) && e@ == ErrorView::Crypto("ecdsa sign: signature error"@),
        },
        ecdsa_sign_prehash(secret@, personal_digest(message@)) matches Some((sig, rid)) ==> {
            &&& rid <= 3
            &&& signature_scalars_valid(sig)
            &&& ecdsa_recover_prehash(personal_digest(message@), sig, rid) == Some(
                secp256k1_public_key(secret@),
            )
        },
        r matches Ok(s) ==> s@.len() == 2 + 65 * 2 && s@[0] == '0' && s@[1] == 'x',
        r matches Ok(s) ==> recover_outcome(message@, s@) == Ok::<Seq<u8>, ErrorView>(
            eth_address(secp256k1_public_key(secret@)),
        ),
{
    proof {
        use_type_invariant(secret);
    }
    let prehash = personal_sign_hash(message);
    let (sig, recovery_id) = match k256_sign_prehash_recoverable(&secret.secret, &prehash) {
        Some(p) => p,
        None => {
            return Err(Error::Crypto(String::from_str("ecdsa sign: signature error")));
        },
    };
    if recovery_id > 1 {
        let mut m = String::from_str("unsupported v: ");
        push_decimal_text(&mut m, (recovery_id + 27) as u64);
        return Err(Error::Crypto(m));
    }
    let mut bytes: Vec<u8> = Vec::new();
    crate::text::push_bytes(&mut bytes, sig.as_slice());
    bytes.push(recovery_id + 27);
    let mut out = String::from_str("0x");
    let h = hex_encode(bytes.as_slice());
    out.append(h.as_str());
    assert(bytes@ =~= sig@.push((recovery_id + 27) as u8));
    proof {
        reveal_strlit("0x");
        personal_signature_recovers(message@, sig@, recovery_id, secp256k1_public_key(secret@));
    }
    Ok(out)
}

} // verus!

verus! {

/// Parsing the CAIP-10 `eip155` text of a chain id and a 20-byte address
/// gives both back.
pub proof fn caip10_roundtrip(chain_id: u64, address: Seq<u8>)
    requires
        address.len() == 20,
    ensures
        caip10_parse(caip10_text(chain_id, address)) == Ok::<(u64, Seq<u8>), ErrorView>((chain_id, address)),
{
    reveal_strlit("eip155:");
    reveal_strlit(":0x");
    reveal_strlit("eip155");
    let d = decimal_text(chain_id as nat);
    let h = hex_lower(address);
    let tail = seq!['0', 'x'] + h;
    let s = caip10_text(chain_id, address);
    assert(s =~= "eip155"@ + seq![':'] + (d + seq![':'] + tail));
    assert(!"eip155"@.contains(':'));
    lemma_decimal_digits(chain_id as nat);
    assert(!d.contains(':')) by {
        if d.contains(':') {
            let k = choose|k: int| 0 <= k < d.len() && d[k] == ':';
            assert(d[k] == decimal(chain_id as nat)[k] as char);
        }
    }
    lemma_hex_lower_chars(address);
    assert(!tail.contains(':')) by {
        if tail.contains(':') {
            let k = choose|k: int| 0 <= k < tail.len() && tail[k] == ':';
            if k >= 2 {
                assert(tail[k] == h[k - 2]);
            }
        }
    }
    lemma_split_on_prefix("eip155"@, d + seq![':'] + tail, ':');
    lemma_split_on_prefix(d, tail, ':');
    lemma_split_on_whole(tail, ':');
    let parts = split_on(s, ':');
    assert(parts =~= seq!["eip155"@, d, tail]);
    lemma_parse_decimal_text(chain_id);
    assert(tail.skip(2) =~= h);
    assert(strip_0x(tail) == Some(h));
    assert forall|i: int| 0 <= i < h.len() implies (#[trigger] h[i] as u32) < 0x80 by {
    }
    crate::text::lemma_encode_utf8_ascii(h);
    assert(vstd::utf8::encode_utf8(h).len() == 40);
    crate::hexcodec::lemma_hex_roundtrip(address);
}


/// Recovering the signer of a signature written as `sign_personal` writes
/// it, with recovery id 0 or 1 (the `v` values 27 and 28 that recovery
/// accepts), over the same message gives the address of the signing key.
pub proof fn personal_signature_recovers(message: Seq<u8>, sig: Seq<u8>, rid: u8, public_key: Seq<u8>)
    requires
        rid <= 1,
        signature_scalars_valid(sig),
        ecdsa_recover_prehash(personal_digest(message), sig, rid) == Some(public_key),
    ensures
        recover_outcome(message, personal_signature_text(sig, rid)) == Ok::<Seq<u8>, ErrorView>(
            eth_address(public_key),
        ),
{
    reveal_strlit("0x");
    let bytes = sig.push((rid + 27) as u8);
    let h = hex_lower(bytes);
    let text = personal_signature_text(sig, rid);
    assert(text =~= seq!['0', 'x'] + h);
    assert(text.skip(2) =~= h);
    assert(strip_0x(text) == Some(h));
    crate::hexcodec::lemma_hex_roundtrip(bytes);
    assert(hex_prefixed(text) == Ok::<Seq<u8>, ErrorView>(bytes));
    assert(bytes.len() == 65);
    let v = bytes[64];
    assert(v == (rid + 27) as u8);
    assert(((v as int - 27) % 256) as u8 == rid);
    assert(bytes.take(64) =~= sig);
}

/// A signature written as `sign_personal` writes it, with recovery id 0 or
/// 1 (the `v` values 27 and 28 that verification accepts), is checked over
/// the same message against a CAIP-10 wallet on any chain: it verifies when
/// the wallet's address is that of the signing key, and is refused as a bad
/// signature when it is any other 20-byte address.
pub proof fn personal_signature_verifies(
    message: Seq<u8>,
    sig: Seq<u8>,
    rid: u8,
    public_key: Seq<u8>,
    chain_id: u64,
    address: Seq<u8>,
)
    requires
        rid <= 1,
        signature_scalars_valid(sig),
        ecdsa_recover_prehash(personal_digest(message), sig, rid) == Some(public_key),
        address.len() == 20,
    ensures
        personal_verification(message, personal_signature_text(sig, rid), caip10_text(chain_id, address))
            == if address == eth_address(public_key) {
            Ok::<(), ErrorView>(())
        } else {
            Err(ErrorView::BadSignature)
        },
{
    personal_signature_recovers(message, sig, rid, public_key);
    caip10_roundtrip(chain_id, address);
}


/// The bytes of `"\x19Ethereum Signed Message:\n"`, spelled out.
pub open spec fn personal_prefix_bytes() -> Seq<u8> {
    seq![
        0x19u8, 0x45u8, 0x74u8, 0x68u8, 0x65u8, 0x72u8, 0x65u8, 0x75u8, 0x6du8, 0x20u8, 0x53u8, 0x69u8,
        0x67u8, 0x6eu8, 0x65u8, 0x64u8, 0x20u8, 0x4du8, 0x65u8, 0x73u8, 0x73u8, 0x61u8, 0x67u8, 0x65u8,
        0x3au8, 0x0au8,
    ]
}

/// The `personal_sign` message is the prefix, the decimal length and the
/// message.
proof fn lemma_personal_message_parts(m: Seq<u8>)
    ensures
        personal_message(m) == personal_prefix_bytes() + decimal(m.len()) + m,
{
    let lit = "\x19Ethereum Signed Message:\n"@;
    reveal_strlit("\x19Ethereum Signed Message:\n");
    assert forall|i: int| 0 <= i < lit.len() implies (#[trigger] lit[i] as u32) < 0x80 by {
    }
    crate::text::lemma_encode_utf8_ascii(lit);
    assert(vstd::utf8::encode_utf8(lit) =~= personal_prefix_bytes());
}

/// The EIP-191 prehash covers the whole message: it is the Keccak-256
/// hash of bytes that start with the `personal_sign` prefix, continue with
/// decimal digits standing for the message's length, and end with every
/// byte of the message.
pub proof fn personal_digest_covers_whole_message(m: Seq<u8>)
    ensures
        personal_digest(m) == keccak256_digest(personal_message(m)),
        personal_message(m).len() >= 27 + m.len(),
        personal_message(m).take(26) == personal_prefix_bytes(),
        personal_message(m).skip(personal_message(m).len() - m.len()) == m,
        ({
            let d = personal_message(m).subrange(26, personal_message(m).len() - m.len());
            &&& d.len() >= 1
            &&& forall|i: int| 0 <= i < d.len() ==> ('0' as u8) <= #[trigger] d[i] <= ('9' as u8)
            &&& digits_value(d) == m.len()
        }),
{
    lemma_personal_message_parts(m);
    lemma_decimal_digits(m.len());
    lemma_digits_value_decimal(m.len());
    let p = personal_prefix_bytes();
    let dm = decimal(m.len());
    let whole = p + dm + m;
    assert(whole.take(26) =~= p);
    assert(whole.skip(whole.len() - m.len()) =~= m);
    assert(whole.subrange(26, whole.len() - m.len()) =~= dm);
}

/// Different messages have different `personal_sign` messages: the
/// prehash input determines the message, so no byte of it goes unhashed.
pub proof fn personal_message_is_injective(a: Seq<u8>, b: Seq<u8>)
    requires
        personal_message(a) == personal_message(b),
    ensures
        a == b,
{
    lemma_personal_message_parts(a);
    lemma_personal_message_parts(b);
    let p = personal_prefix_bytes();
    assert((p + decimal(a.len()) + a).len() == p.len() + decimal(a.len()).len() + a.len());
    assert((p + decimal(b.len()) + b).len() == p.len() + decimal(b.len()).len() + b.len());
    if a.len() < b.len() {
        lemma_decimal_len_mono(a.len(), b.len());
        assert(personal_message(a).len() < personal_message(b).len());
    } else if b.len() < a.len() {
        lemma_decimal_len_mono(b.len(), a.len());
        assert(personal_message(b).len() < personal_message(a).len());
    }
    assert(a.len() == b.len());
    let w = personal_message(a);
    assert(w.skip(w.len() - a.len()) =~= a);
    assert(w.skip(w.len() - b.len()) =~= b);
}

/// A signature is accepted against a CAIP-10 wallet exactly when recovery
/// over the message succeeds and gives the wallet's address.
pub proof fn verification_accepts_exactly_the_signer(message: Seq<u8>, sig_hex: Seq<char>, wallet: Seq<char>)
    ensures
        personal_verification(message, sig_hex, wallet) is Ok <==> ({
            &&& recover_outcome(message, sig_hex) is Ok
            &&& caip10_parse(wallet) is Ok
            &&& recover_outcome(message, sig_hex)->Ok_0 == caip10_parse(wallet)->Ok_0.1
        }),
{
}

/// Recovery reads a 65-byte `r || s || v` signature with `v` 27 or 28 as
/// recovery id `v - 27` over the EIP-191 prehash of the message: it gives
/// the address of the key that id recovers, or a recovery error.
pub proof fn recovery_reads_v_minus_27(message: Seq<u8>, bytes: Seq<u8>)
    requires
        bytes.len() == 65,
        bytes[64] == 27 || bytes[64] == 28,
        signature_scalars_valid(bytes.take(64)),
    ensures
        recover_outcome(message, "0x"@ + hex_lower(bytes)) == match ecdsa_recover_prehash(
            personal_digest(message),
            bytes.take(64),
            (bytes[64] - 27) as u8,
        ) {
            Some(pk) => Ok::<Seq<u8>, ErrorView>(eth_address(pk)),
            None => Err(ErrorView::Crypto("recover: signature error"@)),
        },
{
    reveal_strlit("0x");
    let h = hex_lower(bytes);
    let text = "0x"@ + h;
    assert(text =~= seq!['0', 'x'] + h);
    assert(text.skip(2) =~= h);
    assert(strip_0x(text) == Some(h));
    crate::hexcodec::lemma_hex_roundtrip(bytes);
    assert(hex_prefixed(text) == Ok::<Seq<u8>, ErrorView>(bytes));
    let v = bytes[64];
    assert(((v as int - 27) % 256) as u8 == (v - 27) as u8);
}

/// Recovery refuses a 65-byte signature whose `v` is neither 27 nor 28,
/// naming that `v`.
pub proof fn recovery_refuses_other_v(message: Seq<u8>, bytes: Seq<u8>)
    requires
        bytes.len() == 65,
        bytes[64] != 27,
        bytes[64] != 28,
    ensures
        recover_outcome(message, "0x"@ + hex_lower(bytes)) == Err::<Seq<u8>, ErrorView>(
            ErrorView::Crypto("unsupported v: "@ + decimal_text(bytes[64] as nat)),
        ),
{
    reveal_strlit("0x");
    let h = hex_lower(bytes);
    let text = "0x"@ + h;
    assert(text =~= seq!['0', 'x'] + h);
    assert(text.skip(2) =~= h);
    assert(strip_0x(text) == Some(h));
    crate::hexcodec::lemma_hex_roundtrip(bytes);
    assert(hex_prefixed(text) == Ok::<Seq<u8>, ErrorView>(bytes));
    let v = bytes[64];
    assert(((v as int - 27) % 256) as u8 > 1);
}

/// The signature text `sign_personal` writes decodes to the 64 signature
/// bytes followed by `v`, which is the recovery id plus 27.
pub proof fn signature_text_writes_v(sig: Seq<u8>, rid: u8)
    requires
        sig.len() == 64,
        rid <= 1,
    ensures
        hex_prefixed(personal_signature_text(sig, rid)) matches Ok(b) && b.len() == 65 && b.take(64) == sig
            && b[64] == 27 + rid,
{
    reveal_strlit("0x");
    let bytes = sig.push((rid + 27) as u8);
    let h = hex_lower(bytes);
    let text = personal_signature_text(sig, rid);
    assert(text =~= seq!['0', 'x'] + h);
    assert(text.skip(2) =~= h);
    assert(strip_0x(text) == Some(h));
    crate::hexcodec::lemma_hex_roundtrip(bytes);
    assert(hex_prefixed(text) == Ok::<Seq<u8>, ErrorView>(bytes));
    assert(bytes.take(64) =~= sig);
}

} // verus!
