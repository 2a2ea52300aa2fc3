use serde_ipld_dagcbor::de::from_slice;
use serde_ipld_dagcbor::error::{Error, ErrorCode};
use serde_ipld_dagcbor::value::Value;

fn ok(bytes: &[u8]) -> Value {
    from_slice(bytes).unwrap()
}

fn err(bytes: &[u8]) -> (ErrorCode, u64) {
    let Error { code, offset } = from_slice(bytes).unwrap_err();
    (code, offset)
}

fn integer(n: i128) -> Value {
    Value::Integer(n)
}

fn text(s: &str) -> Value {
    Value::Str(s.to_string())
}

#[test]
fn text_from_slice() {
    let v: Vec<u8> = vec![0x66, 0x66, 0x6f, 0x6f, 0x62, 0x61, 0x72];
    assert_eq!(from_slice(&v[..]), Ok(Value::Str("foobar".to_string())));
}

#[test]
fn unsigned_integers() {
    assert_eq!(ok(&[0x00]), integer(0));
    assert_eq!(ok(&[0x17]), integer(23));
    assert_eq!(ok(&[0x18, 0x18]), integer(24));
    assert_eq!(ok(&[0x18, 0xff]), integer(255));
    assert_eq!(ok(&[0x19, 0x03, 0xe8]), integer(1000));
    assert_eq!(ok(&[0x1a, 0x00, 0x0f, 0x42, 0x40]), integer(1_000_000));
    assert_eq!(
        ok(&[0x1b, 0x00, 0x00, 0x00, 0xe8, 0xd4, 0xa5, 0x10, 0x00]),
        integer(1_000_000_000_000)
    );
    assert_eq!(
        ok(&[0x1b, 0xff, 0xff, 0xff, 0xff, 0xff, 0xff, 0xff, 0xff]),
        integer(18_446_744_073_709_551_615)
    );
}

#[test]
fn negative_integers() {
    assert_eq!(ok(&[0x20]), integer(-1));
    assert_eq!(ok(&[0x37]), integer(-24));
    assert_eq!(ok(&[0x38, 0x63]), integer(-100));
    assert_eq!(ok(&[0x38, 0xff]), integer(-256));
    assert_eq!(ok(&[0x39, 0x03, 0xe7]), integer(-1000));
    assert_eq!(ok(&[0x39, 0xff, 0xff]), integer(-65536));
    assert_eq!(ok(&[0x3a, 0xff, 0xff, 0xff, 0xff]), integer(-4_294_967_296));
    assert_eq!(
        ok(&[0x3b, 0x7f, 0xff, 0xff, 0xff, 0xff, 0xff, 0xff, 0xff]),
        integer(-9_223_372_036_854_775_808)
    );
    assert_eq!(
        ok(&[0x3b, 0x80, 0x00, 0x00, 0x00, 0x00, 0x00, 0x00, 0x00]),
        integer(-9_223_372_036_854_775_809)
    );
    assert_eq!(
        ok(&[0x3b, 0xff, 0xff, 0xff, 0xff, 0xff, 0xff, 0xff, 0xff]),
        integer(-18_446_744_073_709_551_616)
    );
}

#[test]
fn simple_values() {
    assert_eq!(ok(&[0xf4]), Value::Bool(false));
    assert_eq!(ok(&[0xf5]), Value::Bool(true));
    assert_eq!(ok(&[0xf6]), Value::Null);
}

#[test]
fn floating_point_bits() {
    assert_eq!(ok(&[0xf9, 0x3e, 0x00]), Value::F16(0x3e00));
    assert_eq!(ok(&[0xfa, 0x47, 0xc3, 0x50, 0x00]), Value::F32(100_000.0f32.to_bits()));
    assert_eq!(
        ok(&[0xfb, 0x3f, 0xf1, 0x99, 0x99, 0x99, 0x99, 0x99, 0x9a]),
        Value::F64(1.1f64.to_bits())
    );
}

#[test]
fn byte_strings() {
    assert_eq!(ok(&[0x40]), Value::Bytes(vec![]));
    assert_eq!(ok(&[0x44, 1, 2, 3, 4]), Value::Bytes(vec![1, 2, 3, 4]));
    assert_eq!(ok(&[0x58, 0x02, 7, 8]), Value::Bytes(vec![7, 8]));
    assert_eq!(ok(&[0x59, 0x00, 0x02, 7, 8]), Value::Bytes(vec![7, 8]));
    assert_eq!(ok(&[0x5a, 0x00, 0x00, 0x00, 0x02, 7, 8]), Value::Bytes(vec![7, 8]));
    assert_eq!(
        ok(&[0x5b, 0, 0, 0, 0, 0, 0, 0, 0x02, 7, 8]),
        Value::Bytes(vec![7, 8])
    );
}

#[test]
fn text_strings() {
    assert_eq!(ok(&[0x60]), text(""));
    assert_eq!(ok(&[0x62, 0xc3, 0xbc]), text("\u{fc}"));
    assert_eq!(ok(&[0x64, 0xf0, 0x90, 0x85, 0x91]), text("\u{10151}"));
    assert_eq!(ok(&[0x78, 0x03, b'a', b'b', b'c']), text("abc"));
}

#[test]
fn indefinite_strings() {
    assert_eq!(
        ok(&[0x5f, 0x42, 1, 2, 0x43, 3, 4, 5, 0xff]),
        Value::Bytes(vec![1, 2, 3, 4, 5])
    );
    assert_eq!(ok(&[0x5f, 0xff]), Value::Bytes(vec![]));
    assert_eq!(
        ok(&[0x7f, 0x65, b's', b't', b'r', b'e', b'a', 0x64, b'm', b'i', b'n', b'g', 0xff]),
        text("streaming")
    );
    // A character may be spread over two pieces.
    assert_eq!(ok(&[0x7f, 0x61, 0xc3, 0x61, 0xbc, 0xff]), text("\u{fc}"));
    assert_eq!(ok(&[0x5f, 0x58, 0x01, 9, 0x59, 0, 1, 8, 0xff]), Value::Bytes(vec![9, 8]));
}

#[test]
fn lists() {
    assert_eq!(ok(&[0x80]), Value::List(vec![]));
    let nested = Value::List(vec![
        integer(1),
        Value::List(vec![integer(2), integer(3)]),
        Value::List(vec![integer(4), integer(5)]),
    ]);
    assert_eq!(ok(&[0x83, 0x01, 0x82, 0x02, 0x03, 0x82, 0x04, 0x05]), nested);
    assert_eq!(ok(&[0x9f, 0x01, 0x82, 0x02, 0x03, 0x9f, 0x04, 0x05, 0xff, 0xff]), nested);
    assert_eq!(ok(&[0x98, 0x02, 0x01, 0x02]), Value::List(vec![integer(1), integer(2)]));
}

#[test]
fn maps() {
    assert_eq!(ok(&[0xa0]), Value::Mapping(vec![]));
    assert_eq!(
        ok(&[0xa2, 0x01, 0x02, 0x03, 0x04]),
        Value::Mapping(vec![(integer(1), integer(2)), (integer(3), integer(4))])
    );
    assert_eq!(
        ok(&[0xa1, 0x61, b'a', 0x82, 0x02, 0x03]),
        Value::Mapping(vec![(text("a"), Value::List(vec![integer(2), integer(3)]))])
    );
    assert_eq!(
        ok(&[0xbf, 0x63, b'F', b'u', b'n', 0xf5, 0x63, b'A', b'm', b't', 0x21, 0xff]),
        Value::Mapping(vec![(text("Fun"), Value::Bool(true)), (text("Amt"), integer(-2))])
    );
}

#[test]
fn links() {
    assert_eq!(ok(&[0xd8, 0x2a, 0x43, 0x00, 0x01, 0x71]), Value::Link(vec![0x01, 0x71]));
    assert_eq!(ok(&[0xd8, 0x2a, 0x58, 0x03, 0x00, 0x01, 0x71]), Value::Link(vec![0x01, 0x71]));
    assert_eq!(ok(&[0xd8, 0x2a, 0x41, 0x00]), Value::Link(vec![]));
    assert_eq!(
        ok(&[0x81, 0xd8, 0x2a, 0x42, 0x00, 0x12]),
        Value::List(vec![Value::Link(vec![0x12])])
    );
}

#[test]
fn links_are_not_empty() {
    assert_eq!(err(&[0xd8, 0x2a, 0x40]), (ErrorCode::LengthOutOfRange, 3));
    assert_eq!(err(&[0xd8, 0x2a, 0x58, 0x00]), (ErrorCode::LengthOutOfRange, 4));
}

#[test]
fn links_hold_bytes() {
    assert_eq!(err(&[0xd8, 0x2a, 0x61, b'a']), (ErrorCode::UnexpectedCode, 3));
    assert_eq!(err(&[0xd8, 0x2a, 0x5f, 0x41, 0x00, 0xff]), (ErrorCode::UnexpectedCode, 3));
    assert_eq!(err(&[0xd8, 0x2a, 0x43, 0x00]), (ErrorCode::EofWhileParsingValue, 4));
}

#[test]
fn input_that_ends_too_early() {
    assert_eq!(err(&[]), (ErrorCode::EofWhileParsingValue, 0));
    assert_eq!(err(&[0x18]), (ErrorCode::EofWhileParsingValue, 1));
    assert_eq!(err(&[0x19, 0x01]), (ErrorCode::EofWhileParsingValue, 2));
    assert_eq!(err(&[0x43, 1, 2]), (ErrorCode::EofWhileParsingValue, 3));
    assert_eq!(err(&[0x63, b'a']), (ErrorCode::EofWhileParsingValue, 2));
    assert_eq!(err(&[0x5f, 0x41, 1]), (ErrorCode::EofWhileParsingValue, 3));
    assert_eq!(err(&[0x82, 0x01]), (ErrorCode::EofWhileParsingValue, 2));
    assert_eq!(err(&[0xa1, 0x01]), (ErrorCode::EofWhileParsingValue, 2));
    assert_eq!(err(&[0xa1]), (ErrorCode::EofWhileParsingValue, 1));
    assert_eq!(err(&[0x9f, 0x01]), (ErrorCode::EofWhileParsingArray, 2));
    assert_eq!(err(&[0xbf, 0x01, 0x02]), (ErrorCode::EofWhileParsingMap, 3));
    assert_eq!(err(&[0xbf, 0x01]), (ErrorCode::EofWhileParsingValue, 2));
}

#[test]
fn codes_without_meaning() {
    for byte in [0x1cu8, 0x1f, 0x3c, 0x5c, 0x7e, 0x9c, 0xbe, 0xdc, 0xdf, 0xe0, 0xf3, 0xf8, 0xfc] {
        assert_eq!(err(&[byte]), (ErrorCode::UnassignedCode, 1));
    }
}

#[test]
fn codes_that_are_not_accepted() {
    // Tags, the undefined value and a break on its own.
    for byte in [0xc0u8, 0xd7, 0xd9, 0xdb, 0xf7, 0xff] {
        assert_eq!(err(&[byte]), (ErrorCode::UnexpectedCode, 1));
    }
    assert_eq!(err(&[0xd8, 0x2b, 0x41, 0x00]), (ErrorCode::UnexpectedCode, 2));
    assert_eq!(err(&[0x5f, 0x61, b'a', 0xff]), (ErrorCode::UnexpectedCode, 2));
    assert_eq!(err(&[0x7f, 0x41, 0x00, 0xff]), (ErrorCode::UnexpectedCode, 2));
    assert_eq!(err(&[0x82, 0x01, 0xff]), (ErrorCode::UnexpectedCode, 3));
    assert_eq!(err(&[0xbf, 0x01, 0xff]), (ErrorCode::UnexpectedCode, 3));
}

#[test]
fn text_that_is_not_utf8() {
    assert_eq!(err(&[0x63, b'a', 0xff, b'c']), (ErrorCode::InvalidUtf8, 2));
    assert_eq!(err(&[0x62, b'a', 0xc3]), (ErrorCode::InvalidUtf8, 2));
    // The place is counted back from the end of the string, break included.
    assert_eq!(err(&[0x7f, 0x62, b'a', 0xff, 0x61, b'b', 0xff]), (ErrorCode::InvalidUtf8, 5));
}

#[test]
fn data_after_the_value() {
    assert_eq!(err(&[0x01, 0x02]), (ErrorCode::TrailingData, 2));
    assert_eq!(err(&[0x80, 0x80, 0x80]), (ErrorCode::TrailingData, 2));
}

#[test]
fn lengths_beyond_the_input() {
    assert_eq!(
        err(&[0x9b, 0xff, 0xff, 0xff, 0xff, 0xff, 0xff, 0xff, 0xff]).0,
        if usize::MAX as u64 == u64::MAX {
            ErrorCode::EofWhileParsingValue
        } else {
            ErrorCode::LengthOutOfRange
        }
    );
    assert_eq!(
        err(&[0x7b, 0xff, 0xff, 0xff, 0xff, 0xff, 0xff, 0xff, 0xff]),
        (ErrorCode::LengthOutOfRange, 9)
    );
}
