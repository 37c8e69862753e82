//! Hexadecimal text, through the `hex` crate.

use vstd::prelude::*;
use crate::error::HexError;

verus! {

/// The lower-case hexadecimal digit of a value below 16.
pub open spec fn hex_nibble(v: nat) -> char {
    if v < 10 {
        (('0' as nat) + v) as char
    } else {
        (('a' as nat) + v - 10) as char
    }
}

/// Lower-case hexadecimal text of bytes: two digits per byte, high nibble
/// first.
pub open spec fn hex_lower(b: Seq<u8>) -> Seq<char> {
    Seq::new(
        2 * b.len(),
        |i: int|
            if i % 2 == 0 {
                hex_nibble(b[i / 2] as nat / 16)
            } else {
                hex_nibble(b[i / 2] as nat % 16)
            },
    )
}

/// A byte that is one of `0-9`, `a-f`, `A-F`.
pub open spec fn is_hex_byte(b: u8) -> bool {
    (('0' as u8) <= b <= ('9' as u8)) || (('a' as u8) <= b <= ('f' as u8)) || (('A' as u8) <= b
        <= ('F' as u8))
}

/// The value of a hexadecimal digit byte.
pub open spec fn hex_byte_value(b: u8) -> nat {
    if ('0' as u8) <= b <= ('9' as u8) {
        (b - ('0' as u8)) as nat
    } else if ('a' as u8) <= b <= ('f' as u8) {
        (b - ('a' as u8) + 10) as nat
    } else {
        (b - ('A' as u8) + 10) as nat
    }
}

/// The index of the first byte that is not a hexadecimal digit.
pub open spec fn first_non_hex(d: Seq<u8>) -> Option<int>
    decreases d.len(),
{
    if d.len() == 0 {
        None
    } else if !is_hex_byte(d[0]) {
        Some(0)
    } else {
        match first_non_hex(d.drop_first()) {
            Some(i) => Some(i + 1),
            None => None,
        }
    }
}

/// Decoding hexadecimal text: an odd length is refused first; otherwise
/// the first byte that is not a hexadecimal digit is reported with its
/// index; otherwise each pair of digits gives one byte.
pub open spec fn hex_decoded(d: Seq<u8>) -> Result<Seq<u8>, HexError> {
    if d.len() % 2 != 0 {
        Err(HexError::OddLength)
    } else {
        match first_non_hex(d) {
            Some(i) => Err(HexError::InvalidHexCharacter { c: d[i] as char, index: i as usize }),
            None => Ok(
                Seq::new(
                    d.len() / 2,
                    |k: int| (16 * hex_byte_value(d[2 * k]) + hex_byte_value(d[2 * k + 1])) as u8,
                ),
            ),
        }
    }
}

/// `hex::encode`: lower-case hexadecimal text of `bytes`, as `hex_lower`
/// states it.
#[verifier::external_body]
pub(crate) fn hex_encode(bytes: &[u8]) -> (s: String)
    ensures
        s@ == hex_lower(bytes@),
{
    hex::encode(bytes)
}

/// `hex::decode`: as `hex_decoded` states it, with `hex::FromHexError`
/// carried over variant by variant.
#[verifier::external_body]
pub(crate) fn hex_decode(data: &[u8]) -> (r: Result<Vec<u8>, HexError>)
    ensures
        match hex_decoded(data@) {
            Ok(b) => r matches Ok(v) && v@ == b,
            Err(e) => r matches Err(x) && x == e,
        },
{
    match hex::decode(data) {
        Ok(v) => Ok(v),
        Err(hex::FromHexError::InvalidHexCharacter { c, index }) => Err(HexError::InvalidHexCharacter { c, index }),
        Err(hex::FromHexError::OddLength) => Err(HexError::OddLength),
        Err(hex::FromHexError::InvalidStringLength) => Err(HexError::InvalidStringLength),
    }
}

} // verus!

verus! {

/// Every character of hexadecimal text is a digit or `a`-`f`.
pub proof fn lemma_hex_lower_chars(b: Seq<u8>)
    ensures
        forall|i: int| 0 <= i < hex_lower(b).len() ==> {
            let c = #[trigger] hex_lower(b)[i];
            (('0' <= c && c <= '9') || ('a' <= c && c <= 'f'))
        },
{
}

proof fn lemma_first_non_hex_none(d: Seq<u8>)
    requires
        forall|i: int| 0 <= i < d.len() ==> is_hex_byte(#[trigger] d[i]),
    ensures
        first_non_hex(d) is None,
    decreases d.len(),
{
    if d.len() > 0 {
        assert(is_hex_byte(d[0]));
        assert forall|i: int| 0 <= i < d.drop_first().len() implies is_hex_byte(#[trigger] d.drop_first()[i]) by {
            assert(d.drop_first()[i] == d[i + 1]);
        }
        lemma_first_non_hex_none(d.drop_first());
    }
}

/// Decoding the (UTF-8 bytes of the) lower-case hexadecimal text of bytes
/// gives the bytes back.
pub proof fn lemma_hex_roundtrip(b: Seq<u8>)
    ensures
        hex_decoded(vstd::utf8::encode_utf8(hex_lower(b))) == Ok::<Seq<u8>, HexError>(b),
{
    let h = hex_lower(b);
    lemma_hex_lower_chars(b);
    assert forall|i: int| 0 <= i < h.len() implies (#[trigger] h[i] as u32) < 0x80 by {
    }
    crate::text::lemma_encode_utf8_ascii(h);
    let d = vstd::utf8::encode_utf8(h);
    assert(d == h.map_values(|c: char| (c as u32) as u8));
    assert(d.len() == 2 * b.len());
    assert forall|i: int| 0 <= i < d.len() implies is_hex_byte(#[trigger] d[i]) by {
        assert(d[i] == (h[i] as u32) as u8);
    }
    lemma_first_non_hex_none(d);
    assert forall|k: int| 0 <= k < b.len() implies (16 * hex_byte_value(d[2 * k]) + hex_byte_value(d[2 * k + 1])) as u8 == #[trigger] b[k] by {
        assert(d[2 * k] == (h[2 * k] as u32) as u8);
        assert(d[2 * k + 1] == (h[2 * k + 1] as u32) as u8);
        assert((2 * k) % 2 == 0 && (2 * k) / 2 == k);
        assert((2 * k + 1) % 2 == 1 && (2 * k + 1) / 2 == k);
        assert(hex_byte_value(d[2 * k]) == b[k] as nat / 16);
        assert(hex_byte_value(d[2 * k + 1]) == b[k] as nat % 16);
    }
    assert(Seq::new(d.len() / 2, |k: int| (16 * hex_byte_value(d[2 * k]) + hex_byte_value(d[2 * k + 1])) as u8) =~= b);
}

} // verus!
