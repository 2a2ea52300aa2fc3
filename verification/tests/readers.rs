use serde_ipld_dagcbor::de::{from_mut_slice, from_slice, from_slice_with_scratch, Deserializer};
use serde_ipld_dagcbor::error::{Error, ErrorCode};
use serde_ipld_dagcbor::read::{
    Bytes, EitherLifetime, MutSliceRead, Read, SliceRead, SliceReadFixed, Source,
};
use serde_ipld_dagcbor::value::{EitherStr, Token, Value};

const CHUNKED: [u8; 14] = [
    0x82, 0x7f, 0x63, b'f', b'o', b'o', 0x63, b'b', b'a', b'r', 0xff, 0x42, 1, 2,
];

fn chunked() -> Value {
    Value::List(vec![Value::Str("foobar".to_string()), Value::Bytes(vec![1, 2])])
}

#[test]
fn slices() {
    assert_eq!(from_slice(&CHUNKED), Ok(chunked()));
}

#[test]
fn mutable_slices() {
    let mut bytes = CHUNKED;
    assert_eq!(from_mut_slice(&mut bytes), Ok(chunked()));
}

#[test]
fn scratch_buffers() {
    let mut scratch = [0u8; 6];
    assert_eq!(from_slice_with_scratch(&CHUNKED, &mut scratch), Ok(chunked()));
    let mut scratch = [0u8; 5];
    assert_eq!(
        from_slice_with_scratch(&CHUNKED, &mut scratch),
        Err(Error { code: ErrorCode::ScratchTooSmall, offset: 7 })
    );
    let mut scratch = [0u8; 0];
    assert_eq!(
        from_slice_with_scratch(&[0x63, b'f', b'o', b'o'], &mut scratch),
        Ok(Value::Str("foo".to_string()))
    );
}

#[test]
fn strings_borrow_from_a_slice() {
    let bytes = [0x63, b'f', b'o', b'o', 0x41, 7, 0x7f, 0x61, b'x', 0xff];
    let mut de = Deserializer::from_slice(&bytes);
    let text: &str = match de.parse_value() {
        Ok(Token::Str(EitherStr::Long(text))) => text,
        _ => panic!(),
    };
    let data: &[u8] = match de.parse_value() {
        Ok(Token::Bytes(EitherLifetime::Long(data))) => data,
        _ => panic!(),
    };
    assert!(matches!(de.parse_value(), Ok(Token::Str(EitherStr::Short("x")))));
    assert!(de.end().is_ok());
    assert_eq!(text, "foo");
    assert_eq!(data, [7]);
}

#[test]
fn strings_borrow_from_a_mutable_slice() {
    let mut bytes = [0x7f, 0x61, b'x', 0x61, b'y', 0xff, 0x61, b'z', 0x5f, 0x41, 3, 0xff];
    let mut de = Deserializer::from_mut_slice(&mut bytes);
    let first: &str = match de.parse_value() {
        Ok(Token::Str(EitherStr::Long(text))) => text,
        _ => panic!(),
    };
    let second: &str = match de.parse_value() {
        Ok(Token::Str(EitherStr::Long(text))) => text,
        _ => panic!(),
    };
    let third: &[u8] = match de.parse_value() {
        Ok(Token::Bytes(EitherLifetime::Long(data))) => data,
        _ => panic!(),
    };
    assert_eq!((first, second, third), ("xy", "z", &[3u8][..]));
}

#[test]
fn offsets() {
    let bytes = [0x01, 0x42, 7, 8, 0x02];
    let mut de = Deserializer::from_slice(&bytes);
    assert_eq!(de.byte_offset(), 0);
    assert!(de.deserialize_any().is_ok());
    assert_eq!(de.byte_offset(), 1);
    assert!(de.deserialize_any().is_ok());
    assert_eq!(de.byte_offset(), 4);
    assert_eq!(de.peek(), Ok(Some(2)));
    assert_eq!(de.byte_offset(), 4);
    let mut copy = bytes;
    assert_eq!(Deserializer::from_mut_slice(&mut copy).byte_offset(), 0);
    let mut scratch = [0u8; 1];
    assert_eq!(Deserializer::from_slice_with_scratch(&bytes, &mut scratch).byte_offset(), 0);
}

fn short_reads_consume_nothing<'de, R: Read<'de>>(mut reader: R) {
    assert_eq!(reader.next(), Ok(Some(1)));
    let shortage = Error { code: ErrorCode::EofWhileParsingValue, offset: 3 };
    assert!(matches!(reader.read(3), Err(e) if e == shortage));
    assert_eq!(reader.read_to_buffer(3), Err(shortage));
    assert_eq!(reader.read_into(&mut [0; 3]), Err(shortage));
    assert_eq!(reader.offset(), 1);
    assert_eq!(reader.peek(), Ok(Some(2)));
    reader.clear_buffer();
    assert_eq!(reader.read_to_buffer(1), Ok(()));
    reader.discard();
    match reader.take_buffer() {
        EitherLifetime::Long(held) => assert_eq!(held, [2]),
        EitherLifetime::Short(held) => assert_eq!(held, [2]),
    }
    assert_eq!(reader.next(), Ok(None));
    assert_eq!(reader.peek(), Ok(None));
    assert_eq!(reader.offset(), 3);
}

#[test]
fn short_reads() {
    short_reads_consume_nothing(SliceRead::new(&[1, 2, 3]));
    let mut bytes = [1, 2, 3];
    short_reads_consume_nothing(MutSliceRead::new(&mut bytes));
    let mut scratch = [0; 1];
    short_reads_consume_nothing(SliceReadFixed::new(&[1, 2, 3], &mut scratch));
}

#[test]
fn full_scratch_buffers() {
    let mut scratch = [0; 2];
    let mut reader = SliceReadFixed::new(&[1, 2, 3], &mut scratch);
    assert_eq!(reader.read_to_buffer(2), Ok(()));
    assert_eq!(
        reader.read_to_buffer(1),
        Err(Error { code: ErrorCode::ScratchTooSmall, offset: 2 })
    );
    reader.clear_buffer();
    assert_eq!(reader.read_to_buffer(1), Ok(()));
}

/// Delivers one byte, and fails where the next is asked for.
struct Failing {
    delivered: bool,
}

const FAILURE: Error = Error { code: ErrorCode::Io, offset: 0 };

impl<'de> Read<'de> for Failing {
    fn source(&self) -> Source {
        unreachable!()
    }

    fn buffer(&self) -> Bytes {
        unreachable!()
    }

    fn next(&mut self) -> Result<Option<u8>, Error> {
        let byte = self.peek();
        self.delivered = true;
        byte
    }

    fn peek(&mut self) -> Result<Option<u8>, Error> {
        if self.delivered {
            Err(FAILURE)
        } else {
            Ok(Some(0x18))
        }
    }

    fn clear_buffer(&mut self) {}

    fn read_to_buffer(&mut self, _: usize) -> Result<(), Error> {
        Err(FAILURE)
    }

    fn take_buffer<'a>(&'a mut self) -> EitherLifetime<'a, 'de> {
        EitherLifetime::Short(&[])
    }

    fn read<'a>(&'a mut self, _: usize) -> Result<EitherLifetime<'a, 'de>, Error> {
        Err(FAILURE)
    }

    fn read_into(&mut self, _: &mut [u8]) -> Result<(), Error> {
        Err(FAILURE)
    }

    fn discard(&mut self) {
        self.delivered = true;
    }

    fn offset(&self) -> u64 {
        self.delivered as u64
    }
}

#[test]
fn readers_that_fail() {
    let mut de = Deserializer::new(Failing { delivered: false });
    assert_eq!(de.deserialize_any(), Err(FAILURE));
    assert_eq!(de.deserialize_option(), Err(FAILURE));
    assert_eq!(de.end(), Err(FAILURE));
    let mut it = de.into_iter();
    assert_eq!(it.next(), Some(Err(FAILURE)));
}
