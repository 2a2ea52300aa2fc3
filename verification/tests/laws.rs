use serde_ipld_dagcbor::de::{
    from_mut_slice, from_slice, from_slice_with_scratch, Deserializer, StreamDeserializer,
};
use serde_ipld_dagcbor::error::{Error, ErrorCode};
use serde_ipld_dagcbor::read::SliceRead;
use serde_ipld_dagcbor::value::Value;

/// Documents of every kind.
fn documents() -> Vec<Vec<u8>> {
    vec![
        vec![0x01],
        vec![0x38, 0x63],
        vec![0x66, 0x66, 0x6f, 0x6f, 0x62, 0x61, 0x72],
        vec![0x7f, 0x62, b'f', b'o', 0x61, b'o', 0xff],
        vec![0x5f, 0x41, 0x09, 0xff],
        vec![0x83, 0x01, 0x9f, 0xf6, 0xff, 0x60],
        vec![0xbf, 0x61, b'k', 0xa1, 0x02, 0x03, 0xff],
        vec![0xd8, 0x2a, 0x43, 0x00, 0x01, 0x71],
        vec![0xf9, 0x3c, 0x00],
    ]
}

#[test]
fn stream_of_values() {
    let data: Vec<u8> = vec![0x01, 0x66, 0x66, 0x6f, 0x6f, 0x62, 0x61, 0x72];
    let mut it = Deserializer::from_slice(&data[..]).into_iter();
    assert_eq!(Value::Integer(1), it.next().unwrap().unwrap());
    assert_eq!(it.byte_offset(), 1);
    assert_eq!(Value::Str("foobar".to_string()), it.next().unwrap().unwrap());
    assert_eq!(it.byte_offset(), 8);
    assert_eq!(it.next(), None);
    assert_eq!(it.next(), None);
}

#[test]
fn documents_one_after_the_other() {
    let documents = documents();
    let data: Vec<u8> = documents.concat();
    let mut it = StreamDeserializer::new(SliceRead::new(&data));
    let mut offset = 0;
    for document in &documents {
        assert_eq!(it.next(), Some(from_slice(document)));
        offset += document.len();
        assert_eq!(it.byte_offset(), offset);
    }
    assert_eq!(it.next(), None);
}

#[test]
fn stream_that_ends_too_early() {
    let mut it = Deserializer::from_slice(&[0x01, 0x18]).into_iter();
    assert_eq!(it.remaining_depth(), 128);
    assert_eq!(it.next(), Some(Ok(Value::Integer(1))));
    assert_eq!(
        it.next(),
        Some(Err(Error { code: ErrorCode::EofWhileParsingValue, offset: 2 }))
    );
    assert_eq!(it.next(), None);
}

#[test]
fn documents_with_trailing_data() {
    for document in documents() {
        for byte in [0x00, 0x42, 0xff] {
            let mut longer = document.clone();
            longer.push(byte);
            assert_eq!(
                from_slice(&longer),
                Err(Error {
                    code: ErrorCode::TrailingData,
                    offset: document.len() as u64 + 1,
                })
            );
        }
    }
}

#[test]
fn parts_of_documents() {
    for document in documents() {
        for n in 0..document.len() {
            assert!(from_slice(&document[..n]).is_err());
        }
    }
}

#[test]
fn mutable_documents() {
    for document in documents() {
        for n in 0..=document.len() {
            let mut copy = document[..n].to_vec();
            assert_eq!(from_mut_slice(&mut copy), from_slice(&document[..n]));
        }
    }
}

#[test]
fn documents_with_scratch() {
    for document in documents() {
        let mut scratch = vec![0; document.len()];
        assert_eq!(from_slice_with_scratch(&document, &mut scratch), from_slice(&document));
        match from_slice_with_scratch(&document, &mut []) {
            Err(Error { code: ErrorCode::ScratchTooSmall, .. }) => {}
            result => assert_eq!(result, from_slice(&document)),
        }
    }
}

#[test]
fn keys_that_are_refused() {
    for document in documents() {
        let mut de = Deserializer::from_slice(&document).disable_packed_format();
        match de.deserialize_any() {
            Err(Error { code, .. }) => assert_eq!(code, ErrorCode::WrongStructFormat),
            result => assert_eq!(result, from_slice(&document)),
        }
    }
    let inner = [0xa1, 0x61, b'k', 0xa1, 0x02, 0x03];
    let mut de = Deserializer::from_slice(&inner).disable_packed_format();
    assert_eq!(
        de.deserialize_any(),
        Err(Error { code: ErrorCode::WrongStructFormat, offset: 4 })
    );
}

#[test]
fn lower_limits_on_nesting() {
    let bytes = [0x81, 0x81, 0x07];
    let mut de = Deserializer::from_slice(&bytes);
    let result = de.recursion_checked(|de| de.deserialize_any());
    assert_eq!(result, from_slice(&bytes));
}

#[test]
fn counted_and_uncounted() {
    assert_eq!(from_slice(&[0x82, 0x01, 0x80]), from_slice(&[0x9f, 0x01, 0x80, 0xff]));
    assert_eq!(
        from_slice(&[0xa1, 0x61, b'a', 0xf5]),
        from_slice(&[0xbf, 0x61, b'a', 0xf5, 0xff])
    );
    assert_eq!(from_slice(&[0x80]), from_slice(&[0x9f, 0xff]));
}

#[test]
fn places_of_errors() {
    for document in documents() {
        for n in 0..document.len() {
            for byte in [0x00, 0x1c, 0x5f, 0x7f, 0x81, 0xff] {
                let mut bytes = document.clone();
                bytes[n] = byte;
                if let Err(e) = from_slice(&bytes) {
                    assert!(e.offset <= bytes.len() as u64);
                }
            }
        }
    }
}

#[test]
fn tags() {
    for tag in 0..=255u8 {
        let accepted = from_slice(&[0xd8, tag, 0x41, 0x00]).is_ok();
        assert_eq!(accepted, tag == 42);
    }
    let identifier = "$__private__serde__identifier__for__cid";
    for first in [0xc2, 0xd8, 0xd9, 0xda] {
        for second in [0x00, 0x29, 0x2a, 0x2b] {
            let bytes = [first, second, 0x41, 0x00];
            let tagged = Deserializer::from_slice(&bytes).deserialize_newtype_struct(identifier);
            assert_eq!(tagged.is_ok(), from_slice(&bytes).is_ok());
        }
    }
}

#[test]
fn enums_without_any_format() {
    for byte in [0x00, 0x61, 0x80, 0x9f, 0xa1, 0xf6] {
        let bytes = [byte];
        let mut de =
            Deserializer::from_slice(&bytes).disable_standard_enums().disable_legacy_enums();
        assert_eq!(
            de.deserialize_enum(),
            Err(Error { code: ErrorCode::WrongEnumFormat, offset: 0 })
        );
    }
}

#[test]
fn lists_with_a_length_and_with_a_break() {
    let documents = documents();
    for n in 0..documents.len() {
        let content = documents[..n].concat();
        let counted = [&[0x80 + n as u8][..], &content].concat();
        let open = [&[0x9f], &content[..], &[0xff]].concat();
        assert!(from_slice(&counted).is_ok());
        assert_eq!(from_slice(&counted), from_slice(&open));
    }
    // Both are nested too deeply, at the same place.
    let deep = [&[0x81; 126][..], &[0x80]].concat();
    let counted = [&[0x82, 0x01][..], &deep].concat();
    let open = [&[0x9f, 0x01][..], &deep, &[0xff]].concat();
    assert_eq!(
        from_slice(&counted),
        Err(Error { code: ErrorCode::RecursionLimitExceeded, offset: 129 })
    );
    assert_eq!(from_slice(&counted), from_slice(&open));
}

#[test]
fn maps_with_a_length_and_with_a_break() {
    let documents = documents();
    for n in 0..documents.len() / 2 {
        let content = documents[..2 * n].concat();
        let counted = [&[0xa0 + n as u8][..], &content].concat();
        let open = [&[0xbf], &content[..], &[0xff]].concat();
        assert!(from_slice(&counted).is_ok());
        assert_eq!(from_slice(&counted), from_slice(&open));
    }
    let deep = [&[0x81; 126][..], &[0x80]].concat();
    let counted = [&[0xa1, 0x01][..], &deep].concat();
    let open = [&[0xbf, 0x01][..], &deep, &[0xff]].concat();
    assert!(from_slice(&counted).is_err());
    assert_eq!(from_slice(&counted), from_slice(&open));
}

#[test]
fn content_cut_into_pieces() {
    let content = [1u8, 2, 3, 4, 5, 6];
    for first in 0..=content.len() {
        for second in first..=content.len() {
            let mut bytes = vec![0x5f, 0x40 + first as u8];
            bytes.extend_from_slice(&content[..first]);
            bytes.extend_from_slice(&[0x58, (second - first) as u8]);
            bytes.extend_from_slice(&content[first..second]);
            bytes.extend_from_slice(&[0x59, 0x00, (content.len() - second) as u8]);
            bytes.extend_from_slice(&content[second..]);
            bytes.extend_from_slice(&[0xff, 0x07]);
            let mut it = Deserializer::from_slice(&bytes).into_iter();
            assert_eq!(it.next(), Some(Ok(Value::Bytes(content.to_vec()))));
            assert_eq!(it.next(), Some(Ok(Value::Integer(7))));
            assert_eq!(it.next(), None);
        }
    }
    // Two strings in pieces, one after the other: nothing is left of the first.
    assert_eq!(
        from_slice(&[0x82, 0x7f, 0x61, b'a', 0x61, b'b', 0xff, 0x7f, 0x61, b'c', 0xff]),
        Ok(Value::List(vec![Value::Str("ab".to_string()), Value::Str("c".to_string())]))
    );
}

#[test]
fn numbers_of_eight_bytes() {
    for n in [0, 1, 255, 256, 0x0102_0304_0506_0708, u64::MAX - 1, u64::MAX] {
        let bytes = [&[0x1b][..], &n.to_be_bytes()].concat();
        assert_eq!(from_slice(&bytes), Ok(Value::Integer(n as i128)));
        let mut de = Deserializer::from_slice(&bytes);
        assert!(de.deserialize_any().is_ok());
        assert_eq!(de.byte_offset(), 9);
        for short in 1..9 {
            assert!(from_slice(&bytes[..short]).is_err());
        }
    }
}
