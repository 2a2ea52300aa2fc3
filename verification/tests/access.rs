use serde_ipld_dagcbor::access::{
    CidDeserializer, Elements, IndefiniteMapAccess, IndefiniteSeqAccess, MapAccess, SeqAccess,
    UnitVariantAccess, VariantAccess, VariantAccessMap,
};
use serde_ipld_dagcbor::de::Deserializer;
use serde_ipld_dagcbor::error::{Error, ErrorCode, VariantKind};
use serde_ipld_dagcbor::read::EitherLifetime;
use serde_ipld_dagcbor::value::{EnumForm, Value};

fn error(code: ErrorCode, offset: u64) -> Error {
    Error { code, offset }
}

#[test]
fn elements_one_by_one() {
    let mut de = Deserializer::from_slice(&[0x01, 0x02]);
    let mut access = SeqAccess::new(2);
    assert_eq!(access.size_hint(), Some(2));
    assert_eq!(access.next_element_seed(&mut de), Ok(Some(Value::Integer(1))));
    assert_eq!(access.size_hint(), Some(1));
    assert_eq!(access.next_element_seed(&mut de), Ok(Some(Value::Integer(2))));
    assert_eq!(access.next_element_seed(&mut de), Ok(None));
    assert_eq!(access.size_hint(), Some(0));
}

#[test]
fn elements_up_to_the_break() {
    let mut de = Deserializer::from_slice(&[0x01, 0xff]);
    let mut access = IndefiniteSeqAccess;
    assert_eq!(access.size_hint(), None);
    assert_eq!(access.next_element_seed(&mut de), Ok(Some(Value::Integer(1))));
    assert_eq!(access.next_element_seed(&mut de), Ok(None));
    assert_eq!(de.byte_offset(), 1);
    let mut de = Deserializer::from_slice(&[]);
    assert_eq!(
        access.next_element_seed(&mut de),
        Err(error(ErrorCode::EofWhileParsingArray, 0))
    );
}

#[test]
fn keys_one_by_one() {
    let mut de = Deserializer::from_slice(&[0x61, b'a', 0x02]).disable_packed_format();
    let mut access = MapAccess::new(2, &de);
    assert_eq!(access.size_hint(), Some(2));
    assert_eq!(access.next_key_seed(&mut de), Ok(Some(Value::Str("a".to_string()))));
    assert_eq!(access.size_hint(), Some(1));
    assert_eq!(access.next_key_seed(&mut de), Err(error(ErrorCode::WrongStructFormat, 2)));
    assert_eq!(access.next_key_seed(&mut de), Ok(None));
}

#[test]
fn keys_up_to_the_break() {
    let mut de = Deserializer::from_slice(&[0x02, 0xff]);
    let access = IndefiniteMapAccess::new(&de);
    assert_eq!(access.next_key_seed(&mut de), Ok(Some(Value::Integer(2))));
    assert_eq!(access.next_key_seed(&mut de), Ok(None));
    assert_eq!(de.byte_offset(), 1);
    let mut de = Deserializer::from_slice(&[]);
    assert_eq!(access.next_key_seed(&mut de), Err(error(ErrorCode::EofWhileParsingMap, 0)));
}

#[test]
fn visits_must_read_everything() {
    let mut de = Deserializer::from_slice(&[0x01, 0x02]);
    let result = de.visit(SeqAccess::new(2), |de, access| access.next_element_seed(de));
    assert_eq!(result, Err(error(ErrorCode::TrailingData, 1)));
    assert_eq!(de.remaining_depth(), 128);

    let mut de = Deserializer::from_slice(&[0x01, 0x02, 0xff]);
    let result = de.visit(IndefiniteSeqAccess, |de, access| access.next_element_seed(de));
    assert_eq!(result, Err(error(ErrorCode::TrailingData, 2)));

    let mut de = Deserializer::from_slice(&[0x01]);
    let result = de.visit(IndefiniteSeqAccess, |de, access| access.next_element_seed(de));
    assert_eq!(result, Err(error(ErrorCode::EofWhileParsingArray, 1)));

    let mut de = Deserializer::from_slice(&[0x01, 0x02]);
    let access = IndefiniteMapAccess::new(&de);
    let result = de.visit(access, |de, access| access.next_key_seed(de));
    assert_eq!(result, Err(error(ErrorCode::TrailingData, 2)));
}

#[test]
fn visits_may_fail() {
    let mut de = Deserializer::from_slice(&[0x01, 0x02]);
    let result = de.visit(SeqAccess::new(2), |de, access| {
        access.next_element_seed(de).map_err(|_| "error")?;
        Err::<(), &str>("refused")
    });
    assert_eq!(result, Ok(Err("refused")));
    assert_eq!(de.byte_offset(), 1);
    assert_eq!(de.remaining_depth(), 128);
}

#[test]
fn visits_go_down_one_level() {
    let mut de = Deserializer::from_slice(&[0x05, 0xff]);
    let result = de.visit(IndefiniteSeqAccess, |de, access| {
        let depth = de.remaining_depth();
        access.next_element_seed(de).map(|element| (depth, element))
    });
    assert_eq!(result, Ok(Ok((127, Some(Value::Integer(5))))));
    assert_eq!(de.byte_offset(), 2);
}

#[test]
fn enums_in_arrays() {
    // A newtype variant: the variant and its content.
    let mut de = Deserializer::from_slice(&[0x61, b'A', 0x07]);
    let result = de.parse_enum(2, |de, access| {
        access.variant_seed(de)?;
        let variant = de.deserialize_any()?;
        access.newtype_variant_seed(de)?;
        let content = de.deserialize_any()?;
        Ok::<_, Error>((variant, content))
    });
    assert_eq!(result, Ok(Ok((Value::Str("A".to_string()), Value::Integer(7)))));

    // A tuple variant in an array with a break.
    let mut de = Deserializer::from_slice(&[0x00, 0x07, 0x08, 0xff]);
    let result = de.parse_indefinite_enum(|de, access| {
        access.variant_seed(de)?;
        let variant = de.deserialize_any()?;
        let first = access.seq.next_element_seed(de)?;
        let second = access.seq.next_element_seed(de)?;
        let third = access.seq.next_element_seed(de)?;
        Ok::<_, Error>((variant, first, second, third))
    });
    assert_eq!(
        result,
        Ok(Ok((
            Value::Integer(0),
            Some(Value::Integer(7)),
            Some(Value::Integer(8)),
            None,
        )))
    );
    assert!(de.end().is_ok());
}

/// Reads the variant and the content of an enum in an array.
fn newtype_variant(bytes: &[u8], named: bool, packed: bool) -> Result<(Value, Value), Error> {
    let mut de = Deserializer::from_slice(bytes);
    if !named {
        de = de.disable_named_format();
    }
    if !packed {
        de = de.disable_packed_format();
    }
    match de.deserialize_enum()? {
        EnumForm::Array(len) => de.parse_enum(len, |de, access| {
            access.variant_seed(de)?;
            let variant = de.deserialize_any()?;
            access.newtype_variant_seed(de)?;
            Ok((variant, de.deserialize_any()?))
        })?,
        EnumForm::IndefiniteArray => de.parse_indefinite_enum(|de, access| {
            access.variant_seed(de)?;
            let variant = de.deserialize_any()?;
            access.newtype_variant_seed(de)?;
            Ok((variant, de.deserialize_any()?))
        })?,
        _ => panic!(),
    }
}

#[test]
fn enums_in_arrays_in_a_disabled_format() {
    let refused = Err(error(ErrorCode::WrongStructFormat, 1));
    let named = Ok((Value::Str("N".to_string()), Value::Integer(7)));
    for bytes in [&[0x82, 0x61, 0x4e, 0x07][..], &[0x9f, 0x61, 0x4e, 0x07, 0xff][..]] {
        assert_eq!(newtype_variant(bytes, false, true), refused);
        assert_eq!(newtype_variant(bytes, true, false), named);
    }
    let numbered = Ok((Value::Integer(0), Value::Integer(7)));
    for bytes in [&[0x82, 0x00, 0x07][..], &[0x9f, 0x00, 0x07, 0xff][..]] {
        assert_eq!(newtype_variant(bytes, true, false), refused);
        assert_eq!(newtype_variant(bytes, false, true), numbered);
    }
}

#[test]
fn enums_must_be_read_to_their_end() {
    // The content of the variant is left over.
    let mut de = Deserializer::from_slice(&[0x00, 0x07]);
    let result = de.parse_enum(2, |de, access| {
        access.variant_seed(de)?;
        de.deserialize_any()
    });
    assert_eq!(result, Err(error(ErrorCode::TrailingData, 1)));
    let mut de = Deserializer::from_slice(&[0x00, 0x07, 0xff]);
    let result = de.parse_indefinite_enum(|de, access| {
        access.variant_seed(de)?;
        de.deserialize_any()
    });
    assert_eq!(result, Err(error(ErrorCode::TrailingData, 2)));
    let mut de = Deserializer::from_slice(&[0x00, 0x07]);
    let result = de.parse_enum_map(|_, _| Ok::<(), Error>(()));
    assert_eq!(result, Err(error(ErrorCode::TrailingData, 0)));
}

#[test]
fn enums_in_arrays_that_are_too_short() {
    let mut de = Deserializer::from_slice(&[0x00]);
    let mut access = VariantAccess { seq: SeqAccess::new(0) };
    assert_eq!(access.variant_seed(&mut de), Err(error(ErrorCode::ArrayTooShort, 0)));
    assert_eq!(access.newtype_variant_seed(&mut de), Err(error(ErrorCode::ArrayTooShort, 0)));
    assert_eq!(access.struct_variant(&mut de), Err(error(ErrorCode::ArrayTooShort, 0)));
    assert_eq!(access.unit_variant(&mut de), Err(error(ErrorCode::ArrayTooLong, 0)));
    let mut access = VariantAccess { seq: SeqAccess::new(1) };
    assert_eq!(access.unit_variant(&mut de), Ok(()));
    let mut access = VariantAccess { seq: IndefiniteSeqAccess };
    let mut de = Deserializer::from_slice(&[0xff]);
    assert_eq!(access.struct_variant(&mut de), Err(error(ErrorCode::ArrayTooShort, 0)));
    let mut de = Deserializer::from_slice(&[]);
    assert_eq!(access.struct_variant(&mut de), Err(error(ErrorCode::EofWhileParsingArray, 0)));
}

#[test]
fn enums_in_maps() {
    let mut de = Deserializer::from_slice(&[0x61, b'A', 0x07]);
    let result = de.parse_enum_map(|de, access| {
        access.variant_seed(de)?;
        let variant = de.deserialize_any()?;
        let content = de.deserialize_any()?;
        Ok::<_, Error>((variant, content))
    });
    assert_eq!(result, Ok(Ok((Value::Str("A".to_string()), Value::Integer(7)))));

    let mut de = Deserializer::from_slice(&[0x61, b'A', 0x07]).disable_named_format();
    let mut access = VariantAccessMap::new(&de);
    assert_eq!(access.variant_seed(&mut de), Err(error(ErrorCode::WrongStructFormat, 0)));
    assert_eq!(access.variant_seed(&mut de), Err(error(ErrorCode::ArrayTooShort, 0)));
}

#[test]
fn unit_variants() {
    assert_eq!(UnitVariantAccess::unit_variant(), Ok(()));
    assert_eq!(
        UnitVariantAccess::newtype_variant_seed(),
        Err(error(ErrorCode::UnitVariant(VariantKind::Newtype), 0))
    );
    assert_eq!(
        UnitVariantAccess::tuple_variant(),
        Err(error(ErrorCode::UnitVariant(VariantKind::Tuple), 0))
    );
    assert_eq!(
        UnitVariantAccess::struct_variant(),
        Err(error(ErrorCode::UnitVariant(VariantKind::Struct), 0))
    );
}

#[test]
fn cids() {
    let bytes = [0x43, 0x00, 0x01, 0x55];
    let mut de = Deserializer::from_slice(&bytes);
    match CidDeserializer.deserialize_bytes(&mut de) {
        Ok(EitherLifetime::Long(cid)) => assert_eq!(cid, [0x01, 0x55]),
        _ => panic!(),
    }
    let identifier = "$__private__serde__identifier__for__cid";
    let mut de = Deserializer::from_slice(&bytes);
    assert!(CidDeserializer.deserialize_newtype_struct(identifier, &mut de).is_ok());
    assert_eq!(de.byte_offset(), 4);
    let mut de = Deserializer::from_slice(&bytes);
    assert!(matches!(
        CidDeserializer.deserialize_newtype_struct("Cid", &mut de),
        Err(Error { code: ErrorCode::NotCidNewtype, offset: 0 })
    ));
    assert_eq!(de.byte_offset(), 0);
    assert_eq!(CidDeserializer.deserialize_any(), Err(error(ErrorCode::OnlyBytesInCid, 0)));
}

#[test]
fn messages() {
    assert_eq!(
        ErrorCode::OnlyBytesInCid.message(),
        Some("Only bytes can be deserialized into a CID".to_string())
    );
    assert_eq!(
        ErrorCode::NotCidNewtype.message(),
        Some(
            "This deserializer must not be called on newtype structs other than one named \
             `$__private__serde__identifier__for__cid`"
                .to_string()
        )
    );
    assert_eq!(
        ErrorCode::UnitVariant(VariantKind::Newtype).message(),
        Some("invalid type: unit variant, expected newtype variant".to_string())
    );
    assert_eq!(
        ErrorCode::UnitVariant(VariantKind::Tuple).message(),
        Some("invalid type: unit variant, expected tuple variant".to_string())
    );
    assert_eq!(
        ErrorCode::UnitVariant(VariantKind::Struct).message(),
        Some("invalid type: unit variant, expected struct variant".to_string())
    );
    assert_eq!(ErrorCode::TrailingData.message(), None);
}
