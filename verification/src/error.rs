//! The errors of the decoder.

use vstd::prelude::*;
use vstd::string::StringExecFns;
use crate::outside;

verus! {

/// What went wrong.
#[derive(Clone, Copy, PartialEq, Eq, Structural, Debug)]
pub enum ErrorCode {
    /// The input source failed to deliver bytes.
    Io,
    /// The scratch buffer cannot hold the pieces of an indefinite string.
    ScratchTooSmall,
    /// The input ended inside a value.
    EofWhileParsingValue,
    /// The input ended inside an array of indefinite length.
    EofWhileParsingArray,
    /// The input ended inside a map of indefinite length.
    EofWhileParsingMap,
    /// A length does not fit the machine, or a CID is empty.
    LengthOutOfRange,
    /// A text string is not valid UTF-8.
    InvalidUtf8,
    /// The initial byte has no meaning in CBOR.
    UnassignedCode,
    /// The initial byte has a meaning in CBOR that is not accepted here.
    UnexpectedCode,
    /// Data is left over after the value.
    TrailingData,
    /// An array holds fewer elements than the variant needs.
    ArrayTooShort,
    /// An array holds a number of elements that no unit variant has.
    ArrayTooLong,
    /// The values are nested too deeply.
    RecursionLimitExceeded,
    /// The enum is written in a format that is switched off.
    WrongEnumFormat,
    /// The struct is written in a format that is switched off.
    WrongStructFormat,
    /// Something else than bytes was asked of a CID.
    OnlyBytesInCid,
    /// A newtype struct other than the one that marks a CID was asked of a CID.
    NotCidNewtype,
    /// A variant with content was asked where the input holds a unit variant.
    UnitVariant(VariantKind),
}

/// The kinds of enum variants that have content.
#[derive(Clone, Copy, PartialEq, Eq, Structural, Debug)]
pub enum VariantKind {
    Newtype,
    Tuple,
    Struct,
}

/// An error and the place in the input where it was found.
#[derive(Clone, Copy, PartialEq, Eq, Structural, Debug)]
pub struct Error {
    pub code: ErrorCode,
    pub offset: u64,
}

impl VariantKind {
    /// What the kind is called.
    pub open spec fn name(self) -> Seq<char> {
        match self {
            VariantKind::Newtype => "newtype variant"@,
            VariantKind::Tuple => "tuple variant"@,
            VariantKind::Struct => "struct variant"@,
        }
    }
}

impl ErrorCode {
    /// The text of an error that belongs to no place of the input.
    pub open spec fn text(self) -> Option<Seq<char>> {
        match self {
            ErrorCode::OnlyBytesInCid => Some("Only bytes can be deserialized into a CID"@),
            ErrorCode::NotCidNewtype => Some(
                "This deserializer must not be called on newtype structs other than one named `"@
                    + "$__private__serde__identifier__for__cid"@ + "`"@,
            ),
            ErrorCode::UnitVariant(kind) => Some(
                "invalid type: unit variant, expected "@ + kind.name(),
            ),
            _ => None,
        }
    }

    /// Returns the text of an error that belongs to no place of the input.
    pub fn message(&self) -> (result: Option<String>)
        ensures
            match result {
                Some(message) => self.text() == Some(message@),
                None => self.text() is None,
            },
    {
        match self {
            ErrorCode::OnlyBytesInCid => Some(
                "Only bytes can be deserialized into a CID".to_owned(),
            ),
            ErrorCode::NotCidNewtype => {
                let start: &str =
                    "This deserializer must not be called on newtype structs other than one named `";
                Some(start.to_owned().concat(outside::cid_identifier()).concat("`"))
            },
            ErrorCode::UnitVariant(VariantKind::Newtype) => Some(
                outside::unexpected_unit_variant("newtype variant"),
            ),
            ErrorCode::UnitVariant(VariantKind::Tuple) => Some(
                outside::unexpected_unit_variant("tuple variant"),
            ),
            ErrorCode::UnitVariant(VariantKind::Struct) => Some(
                outside::unexpected_unit_variant("struct variant"),
            ),
            _ => None,
        }
    }
}

impl Error {
    /// An error at a place of the input.
    pub fn syntax(code: ErrorCode, offset: u64) -> (e: Error)
        ensures
            e == (Error { code, offset }),
    {
        Error { code, offset }
    }

    /// An error that belongs to no place of the input.
    pub fn message(code: ErrorCode) -> (e: Error)
        ensures
            e == (Error { code, offset: 0 }),
    {
        Error { code, offset: 0 }
    }
}

/// The result of decoding.
pub type Result<T> = core::result::Result<T, Error>;

} // verus!
