use serde_ipld_dagcbor::de::Deserializer;
use serde_ipld_dagcbor::error::{Error, ErrorCode};
use serde_ipld_dagcbor::value::{EnumForm, Value};

const NAMED: [u8; 4] = [0xa1, 0x61, b'a', 0x01];
const PACKED: [u8; 3] = [0xa1, 0x02, 0x01];
const OPEN_NAMED: [u8; 5] = [0xbf, 0x61, b'a', 0x01, 0xff];
const OPEN_PACKED: [u8; 4] = [0xbf, 0x02, 0x01, 0xff];

fn wrong_struct() -> Result<Value, Error> {
    Err(Error { code: ErrorCode::WrongStructFormat, offset: 1 })
}

#[test]
fn named_format() {
    for bytes in [&NAMED[..], &OPEN_NAMED[..]] {
        let mut de = Deserializer::from_slice(bytes).disable_named_format();
        assert_eq!(de.deserialize_any(), wrong_struct());
        let mut de = Deserializer::from_slice(bytes).disable_packed_format();
        assert!(de.deserialize_any().is_ok());
    }
}

#[test]
fn packed_format() {
    for bytes in [&PACKED[..], &OPEN_PACKED[..]] {
        let mut de = Deserializer::from_slice(bytes).disable_packed_format();
        assert_eq!(de.deserialize_any(), wrong_struct());
        let mut de = Deserializer::from_slice(bytes).disable_named_format();
        assert!(de.deserialize_any().is_ok());
    }
}

#[test]
fn other_keys_are_accepted() {
    let bytes = [0xa2, 0x20, 0x01, 0x41, 0x00, 0x02];
    let mut de = Deserializer::from_slice(&bytes).disable_packed_format().disable_named_format();
    assert_eq!(
        de.deserialize_any(),
        Ok(Value::Mapping(vec![
            (Value::Integer(-1), Value::Integer(1)),
            (Value::Bytes(vec![0]), Value::Integer(2)),
        ]))
    );
}

fn enum_form(
    bytes: &[u8],
    standard: bool,
    legacy: bool,
) -> Result<EnumForm, Error> {
    let mut de = Deserializer::from_slice(bytes);
    if !standard {
        de = de.disable_standard_enums();
    }
    if !legacy {
        de = de.disable_legacy_enums();
    }
    de.deserialize_enum()
}

#[test]
fn enum_forms() {
    let wrong = Err(Error { code: ErrorCode::WrongEnumFormat, offset: 0 });
    assert_eq!(enum_form(&[0x82, 0x00, 0x01], true, true), Ok(EnumForm::Array(2)));
    assert_eq!(enum_form(&[0x98, 0x02, 0x00, 0x01], true, true), Ok(EnumForm::Array(2)));
    assert_eq!(enum_form(&[0x9f, 0x00, 0x01, 0xff], false, true), Ok(EnumForm::IndefiniteArray));
    assert_eq!(enum_form(&[0xa1, 0x00, 0x01], true, false), Ok(EnumForm::Mapping));
    assert_eq!(enum_form(&[0x61, b'A'], true, false), Ok(EnumForm::Unit));
    assert_eq!(enum_form(&[0x00], false, true), Ok(EnumForm::Unit));
    assert_eq!(enum_form(&[0xa2, 0x00, 0x01], false, true), Ok(EnumForm::Unit));

    assert_eq!(enum_form(&[0x82, 0x00, 0x01], true, false), wrong);
    assert_eq!(enum_form(&[0x9f, 0x00, 0x01, 0xff], true, false), wrong);
    assert_eq!(enum_form(&[0xa1, 0x00, 0x01], false, true), wrong);
    assert_eq!(enum_form(&[0x61, b'A'], false, false), wrong);

    assert_eq!(
        enum_form(&[], true, true),
        Err(Error { code: ErrorCode::EofWhileParsingValue, offset: 0 })
    );
    assert_eq!(
        enum_form(&[0x9c], true, true),
        Err(Error { code: ErrorCode::UnassignedCode, offset: 1 })
    );
    assert_eq!(
        enum_form(&[0x98], true, true),
        Err(Error { code: ErrorCode::EofWhileParsingValue, offset: 1 })
    );
}

#[test]
fn variants_on_their_own_in_a_disabled_format() {
    let refused = Err(Error { code: ErrorCode::WrongStructFormat, offset: 0 });
    let named = [0x61, 0x55];
    let mut de = Deserializer::from_slice(&named).disable_named_format();
    assert_eq!(de.deserialize_enum(), refused);
    assert_eq!(de.byte_offset(), 0);
    let mut de = Deserializer::from_slice(&named).disable_packed_format();
    assert_eq!(de.deserialize_enum(), Ok(EnumForm::Unit));

    let numbered = [0x00];
    let mut de = Deserializer::from_slice(&numbered).disable_packed_format();
    assert_eq!(de.deserialize_enum(), refused);
    let mut de = Deserializer::from_slice(&numbered).disable_named_format();
    assert_eq!(de.deserialize_enum(), Ok(EnumForm::Unit));

    // Where no enum format is accepted at all, that is the error.
    let mut de = Deserializer::from_slice(&named)
        .disable_named_format()
        .disable_standard_enums()
        .disable_legacy_enums();
    assert_eq!(
        de.deserialize_enum(),
        Err(Error { code: ErrorCode::WrongEnumFormat, offset: 0 })
    );
}

#[test]
fn heads_of_enums_are_consumed() {
    let mut de = Deserializer::from_slice(&[0xa1, 0x00, 0x01]);
    assert!(de.deserialize_enum().is_ok());
    assert_eq!(de.byte_offset(), 1);
    let mut de = Deserializer::from_slice(&[0x00]);
    assert!(de.deserialize_enum().is_ok());
    assert_eq!(de.byte_offset(), 0);
}

#[test]
fn options() {
    let mut de = Deserializer::from_slice(&[0xf6, 0x01]);
    assert_eq!(de.deserialize_option(), Ok(true));
    assert_eq!(de.deserialize_option(), Ok(false));
    assert_eq!(de.byte_offset(), 1);
    assert_eq!(de.deserialize_any(), Ok(Value::Integer(1)));
    // What is missing is noticed when the value is read.
    assert_eq!(de.deserialize_option(), Ok(false));
}

#[test]
fn newtype_structs() {
    let mut de = Deserializer::from_slice(&[0xd8, 0x2a, 0x41, 0x00]);
    assert_eq!(de.deserialize_newtype_struct("Meters"), Ok(false));
    assert_eq!(de.byte_offset(), 0);
    let identifier = "$__private__serde__identifier__for__cid";
    assert_eq!(de.deserialize_newtype_struct(identifier), Ok(true));
    assert_eq!(de.byte_offset(), 2);
    assert_eq!(
        Deserializer::from_slice(&[0xd8, 0x2b]).deserialize_newtype_struct(identifier),
        Err(Error { code: ErrorCode::UnexpectedCode, offset: 2 })
    );
    assert_eq!(
        Deserializer::from_slice(&[0xd8]).deserialize_newtype_struct(identifier),
        Err(Error { code: ErrorCode::EofWhileParsingValue, offset: 1 })
    );
}

#[test]
fn not_human_readable() {
    assert!(!Deserializer::from_slice(&[]).is_human_readable());
}

/// So many lists, each but the last with one element.
fn nested(levels: usize) -> Vec<u8> {
    let mut bytes = vec![0x81; levels - 1];
    bytes.push(0x80);
    bytes
}

#[test]
fn nesting_limit() {
    assert!(Deserializer::from_slice(&nested(127)).deserialize_any().is_ok());
    let bytes = nested(128);
    let mut de = Deserializer::from_slice(&bytes);
    assert_eq!(de.remaining_depth(), 128);
    assert_eq!(
        de.deserialize_any(),
        Err(Error { code: ErrorCode::RecursionLimitExceeded, offset: 128 })
    );
    // A level is lost where the limit was hit.
    assert_eq!(de.remaining_depth(), 127);
}

#[test]
fn nesting_limit_of_maps_and_links() {
    let mut bytes = vec![0x81; 126];
    bytes.extend_from_slice(&[0xa1, 0x00, 0x00]);
    assert!(Deserializer::from_slice(&bytes).deserialize_any().is_ok());
    bytes.insert(0, 0x81);
    assert_eq!(
        Deserializer::from_slice(&bytes).deserialize_any(),
        Err(Error { code: ErrorCode::RecursionLimitExceeded, offset: 128 })
    );
    let mut bytes = vec![0x9f; 127];
    bytes.extend_from_slice(&[0xd8, 0x2a, 0x41, 0x00]);
    assert_eq!(
        Deserializer::from_slice(&bytes).deserialize_any(),
        Err(Error { code: ErrorCode::RecursionLimitExceeded, offset: 129 })
    );
}

#[test]
fn levels_come_back() {
    let bytes = [0x81, 0x81, 0x80, 0x9f];
    let mut de = Deserializer::from_slice(&bytes);
    assert!(de.deserialize_any().is_ok());
    assert_eq!(de.remaining_depth(), 128);
    assert!(de.deserialize_any().is_err());
    assert_eq!(de.remaining_depth(), 128);
}

#[test]
fn visits_beyond_the_limit() {
    let mut bytes = vec![0x81; (2..=128).sum()];
    bytes.push(0x07);
    let mut de = Deserializer::from_slice(&bytes);
    for _ in 0..127 {
        assert!(de.deserialize_any().is_err());
    }
    assert_eq!(de.remaining_depth(), 1);
    let result = de.recursion_checked::<_, ()>(|_| panic!());
    let offset = bytes.len() as u64 - 1;
    assert_eq!(result, Err(Error { code: ErrorCode::RecursionLimitExceeded, offset }));
    assert_eq!(de.remaining_depth(), 0);
}

#[test]
fn levels_used_up() {
    let mut bytes = vec![0x81; (1..=128).sum()];
    bytes.push(0x07);
    let mut it = Deserializer::from_slice(&bytes).into_iter();
    let mut offset = 0;
    for depth in (1..=128u8).rev() {
        assert_eq!(it.remaining_depth(), depth);
        offset += depth as u64;
        assert_eq!(
            it.next(),
            Some(Err(Error { code: ErrorCode::RecursionLimitExceeded, offset }))
        );
    }
    assert_eq!(it.remaining_depth(), 0);
    assert_eq!(it.next(), Some(Ok(Value::Integer(7))));
    assert_eq!(it.next(), None);
}

#[test]
fn checked_recursion() {
    let mut de = Deserializer::from_slice(&[0x05]);
    let inside = de.recursion_checked(|de| {
        let depth = de.remaining_depth();
        de.deserialize_any().map(|value| (depth, value))
    });
    assert_eq!(inside, Ok((127, Value::Integer(5))));
    assert_eq!(de.remaining_depth(), 128);
}
