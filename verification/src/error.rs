//! The library's error type.

use vstd::prelude::*;
use crate::text::{decimal_text, joined, push_decimal_text};

verus! {

/// Why a hexadecimal string could not be decoded.
#[derive(Debug, PartialEq)]
pub enum HexError {
    /// A byte that is not one of `0-9`, `a-f`, `A-F`, at the given byte index.
    InvalidHexCharacter { c: char, index: usize },
    /// The string has an odd number of bytes.
    OddLength,
    /// The string does not have the length of the fixed-size buffer it fills.
    InvalidStringLength,
}

/// Everything that can go wrong while building, serializing or checking a
/// mandate.
#[derive(Debug)]
pub enum Error {
    NotImplemented(&'static str),
    Schema(String),
    BadSignature,
    BadAttestation(String),
    Canonical(String),
    Crypto(String),
    Hex(HexError),
    Json(String),
}

} // verus!

verus! {

/// The mathematical model of an [`Error`]: texts become character sequences.
pub enum ErrorView {
    NotImplemented(Seq<char>),
    Schema(Seq<char>),
    BadSignature,
    BadAttestation(Seq<char>),
    Canonical(Seq<char>),
    Crypto(Seq<char>),
    Hex(HexError),
    Json(Seq<char>),
}

impl View for Error {
    type V = ErrorView;

    open spec fn view(&self) -> ErrorView {
        match self {
            Error::NotImplemented(s) => ErrorView::NotImplemented(s@),
            Error::Schema(s) => ErrorView::Schema(s@),
            Error::BadSignature => ErrorView::BadSignature,
            Error::BadAttestation(s) => ErrorView::BadAttestation(s@),
            Error::Canonical(s) => ErrorView::Canonical(s@),
            Error::Crypto(s) => ErrorView::Crypto(s@),
            Error::Hex(e) => ErrorView::Hex(*e),
            Error::Json(s) => ErrorView::Json(s@),
        }
    }
}

/// The model of a result whose error is an [`Error`].
pub open spec fn result_view<T>(r: Result<T, Error>) -> Result<T, ErrorView> {
    match r {
        Ok(t) => Ok(t),
        Err(e) => Err(e@),
    }
}

} // verus!

verus! {

/// The text `{:?}` gives for a character: the character in single quotes,
/// escaped as `char::escape_debug` escapes it.
pub uninterp spec fn char_debug_text(c: char) -> Seq<char>;

/// `format!("{:?}", c)` for a character; the claim is only that the text is
/// a function of the character.
#[verifier::external_body]
fn char_debug(c: char) -> (s: String)
    ensures
        s@ == char_debug_text(c),
{
    format!("{:?}", c)
}

/// The message of a hexadecimal decoding error.
pub open spec fn hex_error_text(e: HexError) -> Seq<char> {
    match e {
        HexError::InvalidHexCharacter { c, index } => "Invalid character "@ + char_debug_text(c) + " at position "@
            + decimal_text(index as nat),
        HexError::OddLength => "Odd number of digits"@,
        HexError::InvalidStringLength => "Invalid string length"@,
    }
}

/// The message of an error.
pub open spec fn error_text(e: ErrorView) -> Seq<char> {
    match e {
        ErrorView::NotImplemented(s) => "not implemented yet: "@ + s,
        ErrorView::Schema(s) => "schema validation failed: "@ + s,
        ErrorView::BadSignature => "signature verification failed"@,
        ErrorView::BadAttestation(s) => "attestation verification failed: "@ + s,
        ErrorView::Canonical(s) => "canonicalization error: "@ + s,
        ErrorView::Crypto(s) => "crypto error: "@ + s,
        ErrorView::Hex(h) => hex_error_text(h),
        ErrorView::Json(s) => s,
    }
}

impl HexError {
    /// The human-readable message of this error.
    pub fn message(&self) -> (r: String)
        ensures
            r@ == hex_error_text(*self),
    {
        match self {
            HexError::InvalidHexCharacter { c, index } => {
                let mut m = String::from_str("Invalid character ");
                let d = char_debug(*c);
                m.append(d.as_str());
                m.append(" at position ");
                push_decimal_text(&mut m, *index as u64);
                m
            },
            HexError::OddLength => String::from_str("Odd number of digits"),
            HexError::InvalidStringLength => String::from_str("Invalid string length"),
        }
    }
}

impl Error {
    /// The human-readable message of this error.
    pub fn message(&self) -> (r: String)
        ensures
            r@ == error_text(self@),
    {
        match self {
            Error::NotImplemented(s) => joined("not implemented yet: ", s),
            Error::Schema(s) => joined("schema validation failed: ", s.as_str()),
            Error::BadSignature => String::from_str("signature verification failed"),
            Error::BadAttestation(s) => joined("attestation verification failed: ", s.as_str()),
            Error::Canonical(s) => joined("canonicalization error: ", s.as_str()),
            Error::Crypto(s) => joined("crypto error: ", s.as_str()),
            Error::Hex(h) => h.message(),
            Error::Json(s) => s.clone(),
        }
    }
}

} // verus!
