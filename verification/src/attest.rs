//! AMD SEV-SNP attestation parsing and binding check.
//!
//! The mandate v0 format requires that `agent.attestation.report`'s
//! `REPORT_DATA` field's first 64 bytes equal the hash of the canonical
//! body. Parsing the report and validating the VCEK chain are not
//! implemented yet.

use vstd::prelude::*;
use crate::error::{Error, ErrorView};
use crate::types::Mandate;

verus! {

/// Verify a mandate's runtime attestation. Not implemented yet: always
/// reports so.
pub fn verify_attestation(_m: &Mandate) -> (r: Result<(), Error>)
    ensures
        r matches Err(e) && e@ == ErrorView::NotImplemented("verify_attestation"@),
{
    Err(Error::NotImplemented("verify_attestation"))
}

} // verus!
