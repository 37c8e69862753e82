//! `mandate-core`: types, canonical serialization, content addressing and
//! verification for the Mandate v0 wire format.

pub mod unicode;
pub mod order;
pub mod json;
pub mod text;
pub mod error;
pub mod keysort;
pub mod canonical;
pub mod digest;
pub mod types;
pub mod hexcodec;
pub mod secp256k1;
pub mod eth;
pub mod sign;
pub mod verify;
pub mod attest;
pub mod properties;
pub mod refusal;
pub mod whitespace;
pub mod literal;
pub mod reader;
pub mod binding;

pub use error::Error;
pub use types::Mandate;
