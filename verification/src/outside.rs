//! What the decoder has from other crates and from the standard library.

use vstd::prelude::*;
use crate::grammar;

verus! {

/// Calls `core::str::from_utf8`.
///
/// Claimed of it: it accepts exactly the valid UTF-8 strings, what it returns has the bytes it was
/// given, and the error that it returns otherwise tells the greatest index up to which the bytes
/// are valid.
#[verifier::external_body]
pub(crate) fn from_utf8(bytes: &[u8]) -> (result: core::result::Result<&str, usize>)
    ensures
        match result {
            Ok(text) => {
                &&& vstd::utf8::valid_utf8(bytes@)
                &&& text@ == vstd::utf8::decode_utf8(bytes@)
            },
            Err(valid_up_to) => {
                &&& !vstd::utf8::valid_utf8(bytes@)
                &&& grammar::is_valid_up_to(bytes@, valid_up_to as nat)
            },
        },
{
    match core::str::from_utf8(bytes) {
        Ok(text) => Ok(text),
        Err(error) => Err(error.valid_up_to()),
    }
}

/// The constant `cid::serde::CID_SERDE_PRIVATE_IDENTIFIER`.
///
/// Claimed of it: it is the text that the contract spells out.
#[verifier::external_body]
pub(crate) fn cid_identifier() -> (result: &'static str)
    ensures
        grammar::is_cid_identifier(result@),
{
    cid::serde::CID_SERDE_PRIVATE_IDENTIFIER
}

/// Calls `serde::de::Error::invalid_type` on a unit variant, for the error type
/// `serde::de::value::Error`, and takes the text of the error.
///
/// Claimed of it: the text names a unit variant and ends with what was expected.
#[verifier::external_body]
pub(crate) fn unexpected_unit_variant(expected: &str) -> (result: String)
    ensures
        result@ == "invalid type: unit variant, expected "@ + expected@,
{
    let error: serde::de::value::Error = serde::de::Error::invalid_type(
        serde::de::Unexpected::UnitVariant,
        &expected,
    );
    error.to_string()
}

} // verus!
