//! Deserialization.

use vstd::prelude::*;
use crate::access;
use crate::access::{
    Access, CidDeserializer, IndefiniteMapAccess, IndefiniteSeqAccess, MapAccess, SeqAccess,
    VariantAccess, VariantAccessMap,
};
use crate::error::{Error, ErrorCode, Result};
use crate::grammar;
use crate::grammar::{Item, Keys, Step, CBOR_TAGS_CID, CBOR_TAGS_MAJOR_TYPE_AND_CID, MAX_DEPTH};
use crate::laws;
use crate::laws::items;
use crate::laws::progress;
use crate::laws::writing::Writing;
use crate::outside;
use crate::read::{EitherLifetime, MutSliceRead, Offset, Read, SliceRead, SliceReadFixed, Source};
use crate::text;
use crate::value;
use crate::value::{EitherStr, EnumForm, Token, Value};

verus! {

/// How a decoder is set up, and how many levels of nesting it has left.
#[verifier::ext_equal]
pub struct Settings {
    pub depth: nat,
    pub keys: Keys,
    pub standard_enums: bool,
    pub legacy_enums: bool,
}

impl Settings {
    /// The settings one level of nesting down.
    pub open spec fn down(self) -> Settings {
        Settings { depth: (self.depth - 1) as nat, ..self }
    }

    /// The settings one level of nesting up.
    pub open spec fn up(self) -> Settings {
        Settings { depth: self.depth + 1, ..self }
    }
}

/// The settings of a new decoder.
pub open spec fn default_settings() -> Settings {
    Settings {
        depth: grammar::MAX_DEPTH as nat,
        keys: Keys { named: true, packed: true },
        standard_enums: true,
        legacy_enums: true,
    }
}

/// The source that a slice is.
pub open spec fn slice_source(bytes: Seq<u8>) -> Source {
    Source {
        rest: bytes,
        offset: 0,
        broken: false,
        capacity: None,
        lends_input: true,
        lends_buffer: false,
    }
}

/// The source that a mutable slice is.
pub open spec fn mut_slice_source(bytes: Seq<u8>) -> Source {
    Source { lends_buffer: true, ..slice_source(bytes) }
}

/// The source that a slice beside a scratch buffer of the given size is.
pub open spec fn scratch_source(bytes: Seq<u8>, capacity: nat) -> Source {
    Source { capacity: Some(capacity), ..slice_source(bytes) }
}

/// Whether the bytes of the string that begins a source live as long as the input.
pub open spec fn lent(s: Source) -> bool {
    if grammar::info(s.rest[0]) == 31 {
        s.lends_buffer
    } else {
        s.lends_input
    }
}

/// The settings after an attempt to read an item: one level of nesting is lost for good where the
/// limit was hit.
pub open spec fn after<T>(settings: Settings, result: Result<T>) -> Settings {
    match result {
        Err(e) if e.code == ErrorCode::RecursionLimitExceeded => settings.down(),
        _ => settings,
    }
}

/// Whether an item can be read: there is a level of nesting left to go down, or the item does not
/// go down.
pub open spec fn readable(settings: Settings, s: Source) -> bool {
    settings.depth > 0 || !grammar::nests(s)
}

/// What comes of a visit that gave `r` and left `s` to be read, where `end` ends what was visited.
pub open spec fn visited<T, E>(r: core::result::Result<T, E>, s: Source, end: Step<()>) -> Step<
    core::result::Result<T, E>,
> {
    match r {
        Err(e) => Step { result: Ok(Err(e)), left: s },
        Ok(value) => match end.result {
            Ok(_) => Step { result: Ok(Ok(value)), left: end.left },
            Err(e) => Step { result: Err(e), left: end.left },
        },
    }
}

/// A decoder of CBOR data.
#[derive(Debug)]
pub struct Deserializer<R> {
    read: R,
    remaining_depth: u8,
    accept_named: bool,
    accept_packed: bool,
    accept_standard_enums: bool,
    accept_legacy_enums: bool,
}

impl<R> Deserializer<R> {
    pub closed spec fn settings(&self) -> Settings {
        Settings {
            depth: self.remaining_depth as nat,
            keys: Keys { named: self.accept_named, packed: self.accept_packed },
            standard_enums: self.accept_standard_enums,
            legacy_enums: self.accept_legacy_enums,
        }
    }
}

impl<'de, R: Read<'de>> Deserializer<R> {
    /// What is still to be read.
    pub closed spec fn source(&self) -> Source {
        self.read.source()
    }

    /// What the scratch buffer of the reader holds.
    pub closed spec fn buffer(&self) -> Seq<u8> {
        self.read.buffer()
    }

    /// How many levels of nesting are left. Where none is left, only items can be decoded that hold
    /// no other items and are no CIDs.
    pub fn remaining_depth(&self) -> (depth: u8)
        ensures
            depth == self.settings().depth,
    {
        self.remaining_depth
    }

    /// Whether named variants and fields are accepted.
    pub(crate) fn accept_named(&self) -> (result: bool)
        ensures
            result == self.settings().keys.named,
    {
        self.accept_named
    }

    /// Whether numbered variants and fields are accepted.
    pub(crate) fn accept_packed(&self) -> (result: bool)
        ensures
            result == self.settings().keys.packed,
    {
        self.accept_packed
    }

    pub(crate) fn error(&self, reason: ErrorCode) -> (e: Error)
        ensures
            e == self.source().error(reason),
    {
        let offset: u64 = self.read.offset();
        Error::syntax(reason, offset)
    }

    pub(crate) fn next(&mut self) -> (result: Result<Option<u8>>)
        ensures
            result == old(self).source().first(),
            final(self).source() == (if old(self).source().rest.len() > 0 {
                old(self).source().advance(1)
            } else {
                old(self).source()
            }),
            final(self).settings() == old(self).settings(),
            final(self).buffer() == old(self).buffer(),
    {
        self.read.next()
    }

    /// Looks at the next byte, if there is one.
    pub fn peek(&mut self) -> (result: Result<Option<u8>>)
        ensures
            result == old(self).source().first(),
            final(self).source() == old(self).source(),
            final(self).settings() == old(self).settings(),
    {
        self.read.peek()
    }

    fn consume(&mut self)
        requires
            old(self).source().rest.len() > 0,
        ensures
            final(self).source() == old(self).source().advance(1),
            final(self).settings() == old(self).settings(),
    {
        self.read.discard();
    }

    pub(crate) fn parse_u8(&mut self) -> (result: Result<u8>)
        ensures
            ({
                let read = grammar::number(old(self).source(), 1);
                &&& final(self).source() == read.left
                &&& match result {
                    Ok(n) => {
                        &&& read.result == Ok::<nat, Error>(n as nat)
                        &&& old(self).source().rest.len() > 0
                        &&& n == old(self).source().rest[0]
                    },
                    Err(e) => {
                        &&& read.result == Err::<nat, Error>(e)
                        &&& old(self).source().rest.len() == 0
                    },
                }
            }),
            final(self).settings() == old(self).settings(),
            final(self).buffer() == old(self).buffer(),
    {
        match self.next()? {
            Some(byte) => {
                proof {
                    reveal_with_fuel(grammar::big_endian, 2);
                }
                Ok(byte)
            },
            None => Err(self.error(ErrorCode::EofWhileParsingValue)),
        }
    }

    fn parse_u16(&mut self) -> (result: Result<u16>)
        ensures
            ({
                let read = grammar::number(old(self).source(), 2);
                &&& final(self).source() == read.left
                &&& match result {
                    Ok(n) => read.result == Ok::<nat, Error>(n as nat),
                    Err(e) => read.result == Err::<nat, Error>(e),
                }
            }),
            final(self).settings() == old(self).settings(),
            final(self).buffer() == old(self).buffer(),
    {
        let mut buf: [u8; 2] = [0; 2];
        self.read.read_into(&mut buf)?;
        proof {
            reveal_with_fuel(grammar::big_endian, 3);
        }
        Ok(buf[0] as u16 * 256 + buf[1] as u16)
    }

    fn parse_u32(&mut self) -> (result: Result<u32>)
        ensures
            ({
                let read = grammar::number(old(self).source(), 4);
                &&& final(self).source() == read.left
                &&& match result {
                    Ok(n) => read.result == Ok::<nat, Error>(n as nat),
                    Err(e) => read.result == Err::<nat, Error>(e),
                }
            }),
            final(self).settings() == old(self).settings(),
            final(self).buffer() == old(self).buffer(),
    {
        let mut buf: [u8; 4] = [0; 4];
        self.read.read_into(&mut buf)?;
        proof {
            reveal_with_fuel(grammar::big_endian, 5);
        }
        Ok(((buf[0] as u32 * 256 + buf[1] as u32) * 256 + buf[2] as u32) * 256 + buf[3] as u32)
    }

    fn parse_u64(&mut self) -> (result: Result<u64>)
        ensures
            ({
                let read = grammar::number(old(self).source(), 8);
                &&& final(self).source() == read.left
                &&& match result {
                    Ok(n) => read.result == Ok::<nat, Error>(n as nat),
                    Err(e) => read.result == Err::<nat, Error>(e),
                }
            }),
            final(self).settings() == old(self).settings(),
            final(self).buffer() == old(self).buffer(),
    {
        let mut buf: [u8; 8] = [0; 8];
        self.read.read_into(&mut buf)?;
        proof {
            reveal_with_fuel(grammar::big_endian, 9);
        }
        let high: u64 = ((buf[0] as u64 * 256 + buf[1] as u64) * 256 + buf[2] as u64) * 256
            + buf[3] as u64;
        let low: u64 = ((buf[4] as u64 * 256 + buf[5] as u64) * 256 + buf[6] as u64) * 256
            + buf[7] as u64;
        Ok(high * 0x1_0000_0000 + low)
    }

    /// Reads the length that the additional information `info` of an initial byte announces.
    pub(crate) fn parse_length(&mut self, info: u8) -> (result: Result<usize>)
        requires
            info <= 27,
        ensures
            ({
                let read = grammar::length(old(self).source(), info as int);
                &&& final(self).source() == read.left
                &&& match result {
                    Ok(n) => read.result == Ok::<nat, Error>(n as nat),
                    Err(e) => read.result == Err::<nat, Error>(e),
                }
            }),
            final(self).settings() == old(self).settings(),
            final(self).buffer() == old(self).buffer(),
    {
        match info {
            0x00..=0x17 => Ok(info as usize),
            0x18 => Ok(self.parse_u8()? as usize),
            0x19 => Ok(self.parse_u16()? as usize),
            0x1a => Ok(self.parse_u32()? as usize),
            _ => {
                let len: u64 = self.parse_u64()?;
                if len > usize::MAX as u64 {
                    return Err(self.error(ErrorCode::LengthOutOfRange));
                }
                Ok(len as usize)
            },
        }
    }

    pub(crate) fn parse_bytes<'a>(&'a mut self, len: usize) -> (result: Result<
        EitherLifetime<'a, 'de>,
    >)
        ensures
            ({
                let read = grammar::bytes(old(self).source(), len as int);
                &&& final(self).source() == read.left
                &&& match result {
                    Ok(b) => {
                        &&& read.result == Ok::<Seq<u8>, Error>(b@)
                        &&& b is Long == old(self).source().lends_input
                    },
                    Err(e) => read.result == Err::<Seq<u8>, Error>(e),
                }
            }),
            final(self).settings() == old(self).settings(),
    {
        self.read.read(len)
    }

    /// Reads the pieces of an indefinite string of the given major type into the scratch buffer.
    fn parse_pieces(&mut self, kind: u8) -> (result: Result<()>)
        requires
            kind < 7,
        ensures
            ({
                let read = grammar::pieces(old(self).source(), kind as int, Seq::empty());
                &&& final(self).source() == read.left
                &&& match result {
                    Ok(_) => {
                        &&& read.result == Ok::<Seq<u8>, Error>(final(self).buffer())
                        &&& final(self).buffer().len() <= final(self).source().offset
                    },
                    Err(e) => read.result == Err::<Seq<u8>, Error>(e),
                }
            }),
            final(self).settings() == old(self).settings(),
            final(self).source().lends_buffer == old(self).source().lends_buffer,
    {
        self.read.clear_buffer();
        loop
            invariant
                kind < 7,
                grammar::pieces(old(self).source(), kind as int, Seq::empty()) == grammar::pieces(
                    self.source(),
                    kind as int,
                    self.buffer(),
                ),
                self.buffer().len() <= self.source().offset,
                self.settings() == old(self).settings(),
                self.source().lends_buffer == old(self).source().lends_buffer,
            decreases self.source().rest.len(),
        {
            let byte = self.parse_u8()?;
            if byte == 0xff {
                return Ok(());
            }
            if byte / 32 != kind || byte % 32 > 27 {
                return Err(self.error(ErrorCode::UnexpectedCode));
            }
            let len = self.parse_length(byte % 32)?;
            self.read.read_to_buffer(len)?;
        }
    }

    fn parse_indefinite_bytes<'a>(&'a mut self) -> (result: Result<EitherLifetime<'a, 'de>>)
        ensures
            ({
                let read = grammar::pieces(old(self).source(), 2, Seq::empty());
                &&& final(self).source() == read.left
                &&& match result {
                    Ok(b) => {
                        &&& read.result == Ok::<Seq<u8>, Error>(b@)
                        &&& b is Long == old(self).source().lends_buffer
                    },
                    Err(e) => read.result == Err::<Seq<u8>, Error>(e),
                }
            }),
            final(self).settings() == old(self).settings(),
    {
        self.parse_pieces(2)?;
        Ok(self.read.take_buffer())
    }

    fn convert_str<'a>(buf: &'a [u8], buf_end_offset: u64) -> (result: Result<&'a str>)
        requires
            buf@.len() <= buf_end_offset,
        ensures
            match result {
                Ok(s) => grammar::text(buf@, buf_end_offset as int) == Ok::<Seq<char>, Error>(s@),
                Err(e) => grammar::text(buf@, buf_end_offset as int) == Err::<Seq<char>, Error>(e),
            },
    {
        match outside::from_utf8(buf) {
            Ok(s) => Ok(s),
            Err(valid_up_to) => {
                proof {
                    grammar::lemma_valid_up_to(buf@, valid_up_to as nat);
                }
                let shift: usize = buf.len() - valid_up_to;
                let offset: u64 = buf_end_offset - shift as u64;
                Err(Error::syntax(ErrorCode::InvalidUtf8, offset))
            },
        }
    }

    /// Converts the bytes of a string, and keeps how long they live.
    fn convert_either<'a>(bytes: EitherLifetime<'a, 'de>, buf_end_offset: u64) -> (result: Result<
        EitherStr<'a, 'de>,
    >)
        requires
            bytes@.len() <= buf_end_offset,
        ensures
            match result {
                Ok(s) => {
                    &&& grammar::text(bytes@, buf_end_offset as int) == Ok::<Seq<char>, Error>(s@)
                    &&& s is Long == bytes is Long
                },
                Err(e) => grammar::text(bytes@, buf_end_offset as int) == Err::<Seq<char>, Error>(
                    e,
                ),
            },
    {
        match bytes {
            EitherLifetime::Long(buf) => Ok(
                EitherStr::Long(Self::convert_str(buf, buf_end_offset)?),
            ),
            EitherLifetime::Short(buf) => Ok(
                EitherStr::Short(Self::convert_str(buf, buf_end_offset)?),
            ),
        }
    }

    fn parse_str<'a>(&'a mut self, len: usize) -> (result: Result<EitherStr<'a, 'de>>)
        ensures
            ({
                let s = old(self).source();
                if s.offset + len > u64::MAX {
                    &&& result == Err::<EitherStr<'a, 'de>, Error>(
                        s.error(ErrorCode::LengthOutOfRange),
                    )
                    &&& final(self).source() == s
                } else {
                    let read = grammar::bytes(s, len as int);
                    &&& final(self).source() == read.left
                    &&& match read.result {
                        Ok(b) => match result {
                            Ok(t) => {
                                &&& grammar::text(b, s.offset + len) == Ok::<Seq<char>, Error>(t@)
                                &&& t is Long == s.lends_input
                            },
                            Err(e) => grammar::text(b, s.offset + len) == Err::<Seq<char>, Error>(
                                e,
                            ),
                        },
                        Err(e) => result == Err::<EitherStr<'a, 'de>, Error>(e),
                    }
                }
            }),
            final(self).settings() == old(self).settings(),
    {
        if let Some(offset) = self.read.offset().checked_add(len as u64) {
            let bytes = self.read.read(len)?;
            Self::convert_either(bytes, offset)
        } else {
            // An overflow would have occurred.
            Err(Error::syntax(ErrorCode::LengthOutOfRange, self.read.offset()))
        }
    }

    fn parse_indefinite_str<'a>(&'a mut self) -> (result: Result<EitherStr<'a, 'de>>)
        ensures
            ({
                let read = grammar::pieces(old(self).source(), 3, Seq::empty());
                let end = read.left.offset as int;
                &&& final(self).source() == read.left
                &&& match read.result {
                    Ok(b) => match result {
                        Ok(t) => {
                            &&& grammar::text(b, end) == Ok::<Seq<char>, Error>(t@)
                            &&& t is Long == old(self).source().lends_buffer
                        },
                        Err(e) => grammar::text(b, end) == Err::<Seq<char>, Error>(e),
                    },
                    Err(e) => result == Err::<EitherStr<'a, 'de>, Error>(e),
                }
            }),
            final(self).settings() == old(self).settings(),
    {
        self.parse_pieces(3)?;
        let offset: u64 = self.read.offset();
        let bytes = self.read.take_buffer();
        Self::convert_either(bytes, offset)
    }

    /// Major type 0: an unsigned integer.
    fn parse_unsigned<'a>(&mut self, info: u8) -> (result: Result<Token<'a, 'de>>)
        requires
            info <= 27,
        ensures
            final(self).source() == grammar::unsigned(old(self).source(), info as int).left,
            grammar::agrees(result, grammar::unsigned(old(self).source(), info as int).result),
            final(self).settings() == old(self).settings(),
    {
        match info {
            0x00..=0x17 => Ok(Token::U8(info)),
            0x18 => Ok(Token::U8(self.parse_u8()?)),
            0x19 => Ok(Token::U16(self.parse_u16()?)),
            0x1a => Ok(Token::U32(self.parse_u32()?)),
            _ => Ok(Token::U64(self.parse_u64()?)),
        }
    }

    /// Major type 1: a negative integer.
    fn parse_negative<'a>(&mut self, info: u8) -> (result: Result<Token<'a, 'de>>)
        requires
            info <= 27,
        ensures
            final(self).source() == grammar::negative(old(self).source(), info as int).left,
            grammar::agrees(result, grammar::negative(old(self).source(), info as int).result),
            final(self).settings() == old(self).settings(),
    {
        match info {
            0x00..=0x17 => Ok(Token::I8(-1 - info as i8)),
            0x18 => {
                let value: u8 = self.parse_u8()?;
                Ok(Token::I16(-1 - value as i16))
            },
            0x19 => {
                let value: u16 = self.parse_u16()?;
                Ok(Token::I32(-1 - value as i32))
            },
            0x1a => {
                let value: u32 = self.parse_u32()?;
                Ok(Token::I64(-1 - value as i64))
            },
            _ => {
                let value: u64 = self.parse_u64()?;
                if value > i64::MAX as u64 {
                    return Ok(Token::I128(-1 - value as i128));
                }
                Ok(Token::I64(-1 - value as i64))
            },
        }
    }

    /// Major type 2: a byte string.
    fn parse_byte_string<'a>(&'a mut self, info: u8) -> (result: Result<Token<'a, 'de>>)
        requires
            info <= 27 || info == 31,
        ensures
            final(self).source() == grammar::byte_string(old(self).source(), info as int).left,
            grammar::agrees(result, grammar::byte_string(old(self).source(), info as int).result),
            result matches Ok(Token::Bytes(x)) ==> x is Long == (if info == 31 {
                old(self).source().lends_buffer
            } else {
                old(self).source().lends_input
            }),
            final(self).settings() == old(self).settings(),
    {
        if info == 31 {
            Ok(Token::Bytes(self.parse_indefinite_bytes()?))
        } else {
            let len: usize = self.parse_length(info)?;
            Ok(Token::Bytes(self.parse_bytes(len)?))
        }
    }

    /// Major type 3: a text string.
    fn parse_text_string<'a>(&'a mut self, info: u8) -> (result: Result<Token<'a, 'de>>)
        requires
            info <= 27 || info == 31,
        ensures
            final(self).source() == grammar::text_string(old(self).source(), info as int).left,
            grammar::agrees(result, grammar::text_string(old(self).source(), info as int).result),
            result matches Ok(Token::Str(x)) ==> x is Long == (if info == 31 {
                old(self).source().lends_buffer
            } else {
                old(self).source().lends_input
            }),
            final(self).settings() == old(self).settings(),
    {
        if info == 31 {
            Ok(Token::Str(self.parse_indefinite_str()?))
        } else {
            let len: usize = self.parse_length(info)?;
            Ok(Token::Str(self.parse_str(len)?))
        }
    }

    /// Major type 6: a tag. Only that of a CID is supported, hence any other is refused.
    fn parse_tag<'a>(&mut self, info: u8) -> (result: Result<Token<'a, 'de>>)
        requires
            info < 32,
        ensures
            final(self).source() == grammar::tag(old(self).source(), info as int).left,
            grammar::agrees(result, grammar::tag(old(self).source(), info as int).result),
            final(self).settings() == old(self).settings(),
    {
        match info {
            0x18 => {
                if self.parse_u8()? == CBOR_TAGS_CID {
                    Ok(Token::Cid)
                } else {
                    Err(self.error(ErrorCode::UnexpectedCode))
                }
            },
            0x00..=0x1b => Err(self.error(ErrorCode::UnexpectedCode)),
            _ => Err(self.error(ErrorCode::UnassignedCode)),
        }
    }

    /// Major type 7: floating-point numbers and other simple data types that need no content.
    fn parse_simple<'a>(&mut self, info: u8) -> (result: Result<Token<'a, 'de>>)
        requires
            info < 32,
        ensures
            final(self).source() == grammar::simple(old(self).source(), info as int).left,
            grammar::agrees(result, grammar::simple(old(self).source(), info as int).result),
            final(self).settings() == old(self).settings(),
    {
        match info {
            0x14 => Ok(Token::Bool(false)),
            0x15 => Ok(Token::Bool(true)),
            0x16 => Ok(Token::Null),
            // DAG-CBOR does not support `undefined`.
            0x17 => Err(self.error(ErrorCode::UnexpectedCode)),
            0x19 => Ok(Token::F16(self.parse_u16()?)),
            0x1a => Ok(Token::F32(self.parse_u32()?)),
            0x1b => Ok(Token::F64(self.parse_u64()?)),
            0x1f => Err(self.error(ErrorCode::UnexpectedCode)),
            _ => Err(self.error(ErrorCode::UnassignedCode)),
        }
    }

    /// Reads the head of a data item: the item itself, unless it holds other items.
    pub fn parse_value<'a>(&'a mut self) -> (result: Result<Token<'a, 'de>>)
        ensures
            final(self).source() == grammar::head(old(self).source()).left,
            grammar::agrees(result, grammar::head(old(self).source()).result),
            result matches Ok(Token::Bytes(b)) ==> b is Long == lent(old(self).source()),
            result matches Ok(Token::Str(t)) ==> t is Long == lent(old(self).source()),
            final(self).settings() == old(self).settings(),
    {
        let byte = self.parse_u8()?;
        match byte {
            0x00..=0x1b => self.parse_unsigned(byte),
            0x20..=0x3b => self.parse_negative(byte - 0x20),
            0x40..=0x5b | 0x5f => self.parse_byte_string(byte - 0x40),
            0x60..=0x7b | 0x7f => self.parse_text_string(byte - 0x60),
            0x80..=0x9b => Ok(Token::Array(self.parse_length(byte - 0x80)?)),
            0x9f => Ok(Token::IndefiniteArray),
            0xa0..=0xbb => Ok(Token::Mapping(self.parse_length(byte - 0xa0)?)),
            0xbf => Ok(Token::IndefiniteMapping),
            0xc0..=0xdf => self.parse_tag(byte - 0xc0),
            0xe0..=0xff => self.parse_simple(byte - 0xe0),
            _ => Err(self.error(ErrorCode::UnassignedCode)),
        }
    }

    /// Goes one level of nesting down.
    fn enter(&mut self) -> (result: Result<()>)
        requires
            old(self).settings().depth > 0,
        ensures
            result == (if old(self).settings().depth == 1 {
                Err::<(), Error>(old(self).source().error(ErrorCode::RecursionLimitExceeded))
            } else {
                Ok::<(), Error>(())
            }),
            final(self).source() == old(self).source(),
            final(self).settings() == old(self).settings().down(),
    {
        self.remaining_depth = self.remaining_depth - 1;
        if self.remaining_depth == 0 {
            return Err(self.error(ErrorCode::RecursionLimitExceeded));
        }
        Ok(())
    }

    /// Comes back up from a level of nesting.
    fn leave(&mut self)
        requires
            old(self).settings().depth < u8::MAX,
        ensures
            final(self).source() == old(self).source(),
            final(self).settings() == old(self).settings().up(),
    {
        self.remaining_depth = self.remaining_depth + 1;
    }

    /// Runs `f` one level of nesting down.
    pub fn recursion_checked<F, T>(&mut self, f: F) -> (result: Result<T>) where
        F: FnOnce(&mut Deserializer<R>) -> Result<T>,

        requires
            old(self).settings().depth > 0,
            forall|de: &mut Deserializer<R>|
                old(self).settings().depth > 1 && de.source() == old(self).source()
                    && de.settings() == old(self).settings().down()
                    ==> #[trigger] f.requires((de,)),
            forall|de: &mut Deserializer<R>, r: Result<T>|
                old(self).settings().depth > 1 && de.source() == old(self).source()
                    && de.settings() == old(self).settings().down()
                    && #[trigger] f.ensures((de,), r) ==> final(de).settings().depth < u8::MAX,
        ensures
            old(self).settings().depth == 1 ==> {
                &&& result == Err::<T, Error>(
                    old(self).source().error(ErrorCode::RecursionLimitExceeded),
                )
                &&& final(self).source() == old(self).source()
                &&& final(self).settings() == old(self).settings().down()
            },
            old(self).settings().depth > 1 ==> exists|de: &mut Deserializer<R>|
                {
                    &&& de.source() == old(self).source()
                    &&& de.settings() == old(self).settings().down()
                    &&& #[trigger] f.ensures((de,), result)
                    &&& final(self).source() == final(de).source()
                    &&& final(self).settings() == final(de).settings().up()
                },
    {
        self.enter()?;
        let r = f(self);
        self.leave();
        r
    }

    /// Lets `visit` read what an array or a map holds, one level of nesting down, and ends the
    /// array or the map.
    ///
    /// The outer error is one of the decoder, the inner error one of `visit`.
    pub fn visit<A, F, T, E>(&mut self, access: A, visit: F) -> (result: Result<
        core::result::Result<T, E>,
    >) where
        A: Access,
        F: FnOnce(&mut Deserializer<R>, &mut A) -> core::result::Result<T, E>,

        requires
            old(self).settings().depth > 0,
            forall|de: &mut Deserializer<R>, inner: &mut A|
                old(self).settings().depth > 1 && de.source() == old(self).source()
                    && de.settings() == old(self).settings().down()
                    && *inner == access ==> #[trigger] visit.requires((de, inner)),
            forall|de: &mut Deserializer<R>, inner: &mut A, r: core::result::Result<T, E>|
                old(self).settings().depth > 1 && de.source() == old(self).source()
                    && de.settings() == old(self).settings().down()
                    && *inner == access && #[trigger] visit.ensures((de, inner), r)
                    ==> final(de).settings().depth < u8::MAX,
        ensures
            old(self).settings().depth == 1 ==> {
                &&& result == Err::<core::result::Result<T, E>, Error>(
                    old(self).source().error(ErrorCode::RecursionLimitExceeded),
                )
                &&& final(self).source() == old(self).source()
                &&& final(self).settings() == old(self).settings().down()
            },
            old(self).settings().depth > 1 ==> exists|
                de: &mut Deserializer<R>,
                inner: &mut A,
                r: core::result::Result<T, E>,
            |
                {
                    &&& de.source() == old(self).source()
                    &&& de.settings() == old(self).settings().down()
                    &&& *inner == access
                    &&& #[trigger] visit.ensures((de, inner), r)
                    &&& visited(r, final(de).source(), final(inner).end(final(de).source())) == (
                    Step { result, left: final(self).source() })
                    &&& final(self).settings() == final(de).settings().up()
                },
    {
        self.enter()?;
        let mut access = access;
        let result = match visit(self, &mut access) {
            Ok(value) => match access.finish(self) {
                Ok(()) => Ok(Ok(value)),
                Err(e) => Err(e),
            },
            Err(e) => Ok(Err(e)),
        };
        self.leave();
        result
    }

    /// Lets `visit` read an enum in an array of `len` elements.
    ///
    /// The outer error is one of the decoder, the inner error one of `visit`.
    pub fn parse_enum<F, T, E>(&mut self, len: usize, visit: F) -> (result: Result<
        core::result::Result<T, E>,
    >) where
        F: FnOnce(
            &mut Deserializer<R>,
            &mut VariantAccess<SeqAccess>,
        ) -> core::result::Result<T, E>,

        requires
            old(self).settings().depth > 0,
            forall|de: &mut Deserializer<R>, inner: &mut VariantAccess<SeqAccess>|
                old(self).settings().depth > 1 && de.source() == old(self).source()
                    && de.settings() == old(self).settings().down()
                    && inner.seq.left() == len ==> #[trigger] visit.requires((de, inner)),
            forall|
                de: &mut Deserializer<R>,
                inner: &mut VariantAccess<SeqAccess>,
                r: core::result::Result<T, E>,
            |
                old(self).settings().depth > 1 && de.source() == old(self).source()
                    && de.settings() == old(self).settings().down()
                    && inner.seq.left() == len && #[trigger] visit.ensures((de, inner), r)
                    ==> final(de).settings().depth < u8::MAX,
        ensures
            old(self).settings().depth == 1 ==> {
                &&& result == Err::<core::result::Result<T, E>, Error>(
                    old(self).source().error(ErrorCode::RecursionLimitExceeded),
                )
                &&& final(self).source() == old(self).source()
                &&& final(self).settings() == old(self).settings().down()
            },
            old(self).settings().depth > 1 ==> exists|
                de: &mut Deserializer<R>,
                inner: &mut VariantAccess<SeqAccess>,
                r: core::result::Result<T, E>,
            |
                {
                    &&& de.source() == old(self).source()
                    &&& de.settings() == old(self).settings().down()
                    &&& inner.seq.left() == len
                    &&& #[trigger] visit.ensures((de, inner), r)
                    &&& visited(r, final(de).source(), final(inner).end(final(de).source())) == (
                    Step { result, left: final(self).source() })
                    &&& final(self).settings() == final(de).settings().up()
                },
    {
        self.visit(VariantAccess { seq: SeqAccess::new(len) }, visit)
    }

    /// Lets `visit` read an enum in an array that ends with a break.
    ///
    /// The outer error is one of the decoder, the inner error one of `visit`.
    pub fn parse_indefinite_enum<F, T, E>(&mut self, visit: F) -> (result: Result<
        core::result::Result<T, E>,
    >) where
        F: FnOnce(
            &mut Deserializer<R>,
            &mut VariantAccess<IndefiniteSeqAccess>,
        ) -> core::result::Result<T, E>,

        requires
            old(self).settings().depth > 0,
            forall|de: &mut Deserializer<R>, inner: &mut VariantAccess<IndefiniteSeqAccess>|
                old(self).settings().depth > 1 && de.source() == old(self).source()
                    && de.settings() == old(self).settings().down()
                    && inner.seq == IndefiniteSeqAccess ==> #[trigger] visit.requires((de, inner)),
            forall|
                de: &mut Deserializer<R>,
                inner: &mut VariantAccess<IndefiniteSeqAccess>,
                r: core::result::Result<T, E>,
            |
                old(self).settings().depth > 1 && de.source() == old(self).source()
                    && de.settings() == old(self).settings().down()
                    && inner.seq == IndefiniteSeqAccess && #[trigger] visit.ensures((de, inner), r)
                    ==> final(de).settings().depth < u8::MAX,
        ensures
            old(self).settings().depth == 1 ==> {
                &&& result == Err::<core::result::Result<T, E>, Error>(
                    old(self).source().error(ErrorCode::RecursionLimitExceeded),
                )
                &&& final(self).source() == old(self).source()
                &&& final(self).settings() == old(self).settings().down()
            },
            old(self).settings().depth > 1 ==> exists|
                de: &mut Deserializer<R>,
                inner: &mut VariantAccess<IndefiniteSeqAccess>,
                r: core::result::Result<T, E>,
            |
                {
                    &&& de.source() == old(self).source()
                    &&& de.settings() == old(self).settings().down()
                    &&& inner.seq == IndefiniteSeqAccess
                    &&& #[trigger] visit.ensures((de, inner), r)
                    &&& visited(r, final(de).source(), final(inner).end(final(de).source())) == (
                    Step { result, left: final(self).source() })
                    &&& final(self).settings() == final(de).settings().up()
                },
    {
        self.visit(VariantAccess { seq: IndefiniteSeqAccess }, visit)
    }

    /// Lets `visit` read an enum in a map of one entry.
    ///
    /// The outer error is one of the decoder, the inner error one of `visit`.
    pub fn parse_enum_map<F, T, E>(&mut self, visit: F) -> (result: Result<
        core::result::Result<T, E>,
    >) where F: FnOnce(&mut Deserializer<R>, &mut VariantAccessMap) -> core::result::Result<T, E>
        requires
            old(self).settings().depth > 0,
            forall|de: &mut Deserializer<R>, inner: &mut VariantAccessMap|
                old(self).settings().depth > 1 && de.source() == old(self).source()
                    && de.settings() == old(self).settings().down()
                    && inner.map.left() == 1 && inner.map.keys() == old(self).settings().keys
                    ==> #[trigger] visit.requires((de, inner)),
            forall|
                de: &mut Deserializer<R>,
                inner: &mut VariantAccessMap,
                r: core::result::Result<T, E>,
            |
                old(self).settings().depth > 1 && de.source() == old(self).source()
                    && de.settings() == old(self).settings().down()
                    && inner.map.left() == 1 && inner.map.keys() == old(self).settings().keys
                    && #[trigger] visit.ensures((de, inner), r)
                    ==> final(de).settings().depth < u8::MAX,
        ensures
            old(self).settings().depth == 1 ==> {
                &&& result == Err::<core::result::Result<T, E>, Error>(
                    old(self).source().error(ErrorCode::RecursionLimitExceeded),
                )
                &&& final(self).source() == old(self).source()
                &&& final(self).settings() == old(self).settings().down()
            },
            old(self).settings().depth > 1 ==> exists|
                de: &mut Deserializer<R>,
                inner: &mut VariantAccessMap,
                r: core::result::Result<T, E>,
            |
                {
                    &&& de.source() == old(self).source()
                    &&& de.settings() == old(self).settings().down()
                    &&& inner.map.left() == 1 && inner.map.keys() == old(self).settings().keys
                    &&& #[trigger] visit.ensures((de, inner), r)
                    &&& visited(r, final(de).source(), final(inner).end(final(de).source())) == (
                    Step { result, left: final(self).source() })
                    &&& final(self).settings() == final(de).settings().up()
                },
    {
        let access = VariantAccessMap::new(self);
        self.visit(access, visit)
    }

    /// Reads an array of `len` elements.
    fn parse_array(&mut self, len: usize) -> (result: Result<Value>)
        requires
            old(self).settings().depth > 0,
        ensures
            ({
                let read = grammar::list(
                    old(self).source(),
                    len as nat,
                    old(self).settings().depth,
                    old(self).settings().keys,
                );
                &&& final(self).source() == read.left
                &&& grammar::agrees(result, read.result)
            }),
            final(self).settings() == after(old(self).settings(), result),
        decreases old(self).settings().depth, 0nat,
    {
        self.enter()?;
        let mut access = SeqAccess::new(len);
        let result = access.collect(self);
        self.leave();
        let elements = result?;
        access.finish(self)?;
        proof {
            value::list_item(elements);
        }
        Ok(Value::List(elements))
    }

    /// Reads an array that ends with a break.
    fn parse_indefinite_array(&mut self) -> (result: Result<Value>)
        requires
            old(self).settings().depth > 0,
        ensures
            ({
                let read = grammar::open_list(
                    old(self).source(),
                    old(self).settings().depth,
                    old(self).settings().keys,
                );
                &&& final(self).source() == read.left
                &&& grammar::agrees(result, read.result)
            }),
            final(self).settings() == after(old(self).settings(), result),
        decreases old(self).settings().depth, 0nat,
    {
        self.enter()?;
        let mut access = IndefiniteSeqAccess;
        let result = access.collect(self);
        self.leave();
        let elements = result?;
        proof {
            value::list_item(elements);
        }
        Ok(Value::List(elements))
    }

    /// Reads a map of `len` entries.
    fn parse_map(&mut self, len: usize) -> (result: Result<Value>)
        requires
            old(self).settings().depth > 0,
        ensures
            ({
                let read = grammar::table(
                    old(self).source(),
                    len as nat,
                    old(self).settings().depth,
                    old(self).settings().keys,
                );
                &&& final(self).source() == read.left
                &&& grammar::agrees(result, read.result)
            }),
            final(self).settings() == after(old(self).settings(), result),
        decreases old(self).settings().depth, 0nat,
    {
        self.enter()?;
        let mut access = MapAccess::new(len, self);
        let result = access.collect(self);
        self.leave();
        let entries = result?;
        access.finish(self)?;
        proof {
            value::mapping_item(entries);
        }
        Ok(Value::Mapping(entries))
    }

    /// Reads a map that ends with a break.
    fn parse_indefinite_map(&mut self) -> (result: Result<Value>)
        requires
            old(self).settings().depth > 0,
        ensures
            ({
                let read = grammar::open_table(
                    old(self).source(),
                    old(self).settings().depth,
                    old(self).settings().keys,
                );
                &&& final(self).source() == read.left
                &&& grammar::agrees(result, read.result)
            }),
            final(self).settings() == after(old(self).settings(), result),
        decreases old(self).settings().depth, 0nat,
    {
        self.enter()?;
        let mut access = IndefiniteMapAccess::new(self);
        let result = access.collect(self);
        self.leave();
        let entries = result?;
        proof {
            value::mapping_item(entries);
        }
        Ok(Value::Mapping(entries))
    }

    /// Reads a CID behind its tag.
    fn parse_cid(&mut self) -> (result: Result<Value>)
        requires
            old(self).settings().depth > 0,
        ensures
            ({
                let read = grammar::tagged_link(old(self).source(), old(self).settings().depth);
                &&& final(self).source() == read.left
                &&& grammar::agrees(result, read.result)
            }),
            final(self).settings() == after(old(self).settings(), result),
    {
        proof {
            progress::link_codes(self.source());
        }
        self.recursion_checked(Self::parse_link)
    }

    /// Reads the bytes of a CID.
    fn parse_link(&mut self) -> (result: Result<Value>)
        ensures
            final(self).source() == grammar::link(old(self).source()).left,
            grammar::agrees(result, grammar::linked(grammar::link(old(self).source())).result),
            final(self).settings() == old(self).settings(),
    {
        match CidDeserializer.deserialize_bytes(self)? {
            EitherLifetime::Long(bytes) => Ok(Value::Link(vstd::slice::slice_to_vec(bytes))),
            EitherLifetime::Short(bytes) => Ok(Value::Link(vstd::slice::slice_to_vec(bytes))),
        }
    }

    /// Reads a data item.
    pub fn deserialize_any(&mut self) -> (result: Result<Value>)
        requires
            readable(old(self).settings(), old(self).source()),
        ensures
            ({
                let read = grammar::item(
                    old(self).source(),
                    old(self).settings().depth,
                    old(self).settings().keys,
                );
                &&& final(self).source() == read.left
                &&& grammar::agrees(result, read.result)
            }),
            final(self).settings() == after(old(self).settings(), result),
        decreases old(self).settings().depth, 1nat,
    {
        proof {
            progress::head_codes(self.source());
        }
        match self.parse_value()? {
            Token::U8(n) => Ok(Value::Integer(n as i128)),
            Token::U16(n) => Ok(Value::Integer(n as i128)),
            Token::U32(n) => Ok(Value::Integer(n as i128)),
            Token::U64(n) => Ok(Value::Integer(n as i128)),
            Token::I8(n) => Ok(Value::Integer(n as i128)),
            Token::I16(n) => Ok(Value::Integer(n as i128)),
            Token::I32(n) => Ok(Value::Integer(n as i128)),
            Token::I64(n) => Ok(Value::Integer(n as i128)),
            Token::I128(n) => Ok(Value::Integer(n)),
            Token::Bytes(EitherLifetime::Long(bytes)) => Ok(
                Value::Bytes(vstd::slice::slice_to_vec(bytes)),
            ),
            Token::Bytes(EitherLifetime::Short(bytes)) => Ok(
                Value::Bytes(vstd::slice::slice_to_vec(bytes)),
            ),
            Token::Str(EitherStr::Long(text)) => Ok(Value::Str(text.to_owned())),
            Token::Str(EitherStr::Short(text)) => Ok(Value::Str(text.to_owned())),
            Token::Array(len) => self.parse_array(len),
            Token::IndefiniteArray => self.parse_indefinite_array(),
            Token::Mapping(len) => self.parse_map(len),
            Token::IndefiniteMapping => self.parse_indefinite_map(),
            Token::Cid => self.parse_cid(),
            Token::Bool(b) => Ok(Value::Bool(b)),
            Token::Null => Ok(Value::Null),
            Token::F16(bits) => Ok(Value::F16(bits)),
            Token::F32(bits) => Ok(Value::F32(bits)),
            Token::F64(bits) => Ok(Value::F64(bits)),
        }
    }

    /// Tells whether the next item is null, and consumes it if so.
    pub fn deserialize_option(&mut self) -> (result: Result<bool>)
        ensures
            final(self).source() == grammar::null(old(self).source()).left,
            result == grammar::null(old(self).source()).result,
            final(self).settings() == old(self).settings(),
    {
        match self.peek()? {
            Some(0xf6) => {
                self.consume();
                Ok(true)
            },
            _ => Ok(false),
        }
    }

    /// Tells whether the newtype struct called `name` is a CID, and consumes its tag if so.
    pub fn deserialize_newtype_struct(&mut self, name: &str) -> (result: Result<bool>)
        ensures
            ({
                let s = old(self).source();
                if grammar::is_cid_identifier(name@) {
                    // It is only valid if there is really an encoded CID.
                    &&& final(self).source() == grammar::cid_tag(s).left
                    &&& match grammar::cid_tag(s).result {
                        Ok(_) => result == Ok::<bool, Error>(true),
                        Err(e) => result == Err::<bool, Error>(e),
                    }
                } else {
                    &&& final(self).source() == s
                    &&& result == Ok::<bool, Error>(false)
                }
            }),
            final(self).settings() == old(self).settings(),
    {
        if text::same_text(name, outside::cid_identifier()) {
            match self.parse_u16()? {
                CBOR_TAGS_MAJOR_TYPE_AND_CID => Ok(true),
                _ => Err(self.error(ErrorCode::UnexpectedCode)),
            }
        } else {
            Ok(false)
        }
    }

    /// Reads the head of an enum, and tells how the enum is written.
    ///
    /// Unit variants are encoded as just the variant identifier. Tuple variants are encoded as an
    /// array of the variant identifier followed by the fields. Struct variants are encoded as an
    /// array of the variant identifier followed by the struct. A map of one entry holds the variant
    /// identifier and the content.
    pub fn deserialize_enum(&mut self) -> (result: Result<EnumForm>)
        ensures
            ({
                let read = grammar::enum_form(
                    old(self).source(),
                    old(self).settings().standard_enums,
                    old(self).settings().legacy_enums,
                    old(self).settings().keys,
                );
                &&& final(self).source() == read.left
                &&& grammar::agrees(result, read.result)
            }),
            final(self).settings() == old(self).settings(),
    {
        match self.peek()? {
            Some(byte @ 0x80..=0x9f) => {
                if !self.accept_legacy_enums {
                    return Err(self.error(ErrorCode::WrongEnumFormat));
                }
                self.consume();
                match byte {
                    0x80..=0x9b => Ok(EnumForm::Array(self.parse_length(byte - 0x80)?)),
                    0x9f => Ok(EnumForm::IndefiniteArray),
                    _ => Err(self.error(ErrorCode::UnassignedCode)),
                }
            },
            Some(0xa1) => {
                if !self.accept_standard_enums {
                    return Err(self.error(ErrorCode::WrongEnumFormat));
                }
                self.consume();
                Ok(EnumForm::Mapping)
            },
            None => Err(self.error(ErrorCode::EofWhileParsingValue)),
            Some(byte) => {
                if !self.accept_standard_enums && !self.accept_legacy_enums {
                    return Err(self.error(ErrorCode::WrongEnumFormat));
                }
                access::check_key(byte, self.accept_named, self.accept_packed, self)?;
                Ok(EnumForm::Unit)
            },
        }
    }

    /// Whether the format is meant for people to read.
    pub fn is_human_readable(&self) -> (result: bool)
        ensures
            !result,
    {
        false
    }

    /// Constructs a `Deserializer` from one of the possible input sources.
    ///
    /// `from_slice` should normally be used instead of this method.
    pub fn new(read: R) -> (de: Self)
        ensures
            de.source() == read.source(),
            de.settings() == default_settings(),
    {
        Deserializer {
            read,
            remaining_depth: MAX_DEPTH,
            accept_named: true,
            accept_packed: true,
            accept_standard_enums: true,
            accept_legacy_enums: true,
        }
    }

    /// Do not accept named variants and fields.
    pub fn disable_named_format(self) -> (de: Self)
        ensures
            de.source() == self.source(),
            de.settings() == (Settings {
                keys: Keys { named: false, ..self.settings().keys },
                ..self.settings()
            }),
    {
        Deserializer { accept_named: false, ..self }
    }

    /// Do not accept numbered variants and fields.
    pub fn disable_packed_format(self) -> (de: Self)
        ensures
            de.source() == self.source(),
            de.settings() == (Settings {
                keys: Keys { packed: false, ..self.settings().keys },
                ..self.settings()
            }),
    {
        Deserializer { accept_packed: false, ..self }
    }

    /// Do not accept enums in maps.
    pub fn disable_standard_enums(self) -> (de: Self)
        ensures
            de.source() == self.source(),
            de.settings() == (Settings { standard_enums: false, ..self.settings() }),
    {
        Deserializer { accept_standard_enums: false, ..self }
    }

    /// Do not accept enums in arrays.
    pub fn disable_legacy_enums(self) -> (de: Self)
        ensures
            de.source() == self.source(),
            de.settings() == (Settings { legacy_enums: false, ..self.settings() }),
    {
        Deserializer { accept_legacy_enums: false, ..self }
    }

    /// This method should be called after a value has been deserialized to ensure there is no
    /// trailing data in the input source.
    pub fn end(&mut self) -> (result: Result<()>)
        ensures
            final(self).source() == grammar::end(old(self).source()).left,
            result == grammar::end(old(self).source()).result,
            final(self).settings() == old(self).settings(),
    {
        match self.next()? {
            Some(_) => Err(self.error(ErrorCode::TrailingData)),
            None => Ok(()),
        }
    }

    /// Turns a decoder into a stream of values.
    pub fn into_iter(self) -> (stream: StreamDeserializer<R>)
        ensures
            stream.source() == self.source(),
            stream.settings() == self.settings(),
    {
        StreamDeserializer { de: self }
    }

    /// Reads a data item that is all there is to read.
    fn document(self) -> (result: Result<Value>)
        requires
            self.settings().depth == grammar::MAX_DEPTH,
            self.settings().keys == (Keys { named: true, packed: true }),
        ensures
            grammar::agrees(result, grammar::document(self.source())),
    {
        let mut de = self;
        let value = de.deserialize_any()?;
        de.end()?;
        Ok(value)
    }
}

impl<'de, R: Offset<'de>> Deserializer<R> {
    /// Returns the current offset in the reader.
    pub fn byte_offset(&self) -> (offset: usize)
        ensures
            offset == self.source().offset,
    {
        self.read.byte_offset()
    }
}

impl<'a> Deserializer<SliceRead<'a>> {
    /// Constructs a `Deserializer` which reads from a slice.
    ///
    /// Borrowed strings and byte slices will be provided when possible.
    pub fn from_slice(bytes: &'a [u8]) -> (de: Deserializer<SliceRead<'a>>)
        ensures
            de.source() == slice_source(bytes@),
            de.settings() == default_settings(),
    {
        Deserializer::new(SliceRead::new(bytes))
    }
}

impl<'a> Deserializer<MutSliceRead<'a>> {
    /// Constructs a `Deserializer` which reads from a mutable slice that doubles as its own
    /// scratch buffer.
    ///
    /// Borrowed strings and byte slices will be provided even for indefinite strings.
    pub fn from_mut_slice(bytes: &'a mut [u8]) -> (de: Deserializer<MutSliceRead<'a>>)
        ensures
            de.source() == mut_slice_source(old(bytes)@),
            de.settings() == default_settings(),
    {
        Deserializer::new(MutSliceRead::new(bytes))
    }
}

impl<'a, 'b> Deserializer<SliceReadFixed<'a, 'b>> {
    /// Constructs a `Deserializer` which reads from a slice with a scratch buffer.
    pub fn from_slice_with_scratch(bytes: &'a [u8], scratch: &'b mut [u8]) -> (de: Deserializer<
        SliceReadFixed<'a, 'b>,
    >)
        ensures
            de.source() == scratch_source(bytes@, old(scratch)@.len()),
            de.settings() == default_settings(),
    {
        Deserializer::new(SliceReadFixed::new(bytes, scratch))
    }
}

/// Decodes a value from CBOR data in a slice.
pub fn from_slice(slice: &[u8]) -> (result: Result<Value>)
    ensures
        grammar::agrees(result, grammar::document(slice_source(slice@))),
        forall|w: Writing|
            #![trigger w.bytes()]
            w.bytes() == slice@ && w.sound(None) && items::accepted(
                w.item(),
                MAX_DEPTH as nat,
                Keys { named: true, packed: true },
            ) ==> (result matches Ok(value) && value@ == w.item()),
{
    proof {
        assert forall|w: Writing|
            #![trigger w.bytes()]
            w.bytes() == slice@ && w.sound(None) && items::accepted(
                w.item(),
                MAX_DEPTH as nat,
                Keys { named: true, packed: true },
            ) implies grammar::document(slice_source(slice@)) == Ok::<Item, Error>(w.item()) by {
            assert(slice.len() <= usize::MAX);
            laws::documents_are_read_back(w, 0);
        }
    }
    Deserializer::from_slice(slice).document()
}

/// Decodes a value from CBOR data in a mutable slice.
///
/// This can be used in analogy to `from_slice`. Unlike `from_slice`, this will use the slice's
/// mutability to rearrange data in it in order to resolve indefinite byte or text strings without
/// resorting to allocations. What the slice holds in the end is left open.
pub fn from_mut_slice(slice: &mut [u8]) -> (result: Result<Value>)
    ensures
        grammar::agrees(result, grammar::document(mut_slice_source(old(slice)@))),
{
    Deserializer::from_mut_slice(slice).document()
}

/// Decodes a value from CBOR data using a scratch buffer.
///
/// Users should generally prefer to use `from_slice` or `from_mut_slice` over this function,
/// as decoding may fail when the scratch buffer turns out to be too small. What the scratch buffer
/// holds in the end is left open.
pub fn from_slice_with_scratch(slice: &[u8], scratch: &mut [u8]) -> (result: Result<Value>)
    ensures
        grammar::agrees(result, grammar::document(scratch_source(slice@, old(scratch)@.len()))),
{
    Deserializer::from_slice_with_scratch(slice, scratch).document()
}

/// A stream of values, one after the other.
#[derive(Debug)]
pub struct StreamDeserializer<R> {
    de: Deserializer<R>,
}

impl<R> StreamDeserializer<R> {
    /// How the decoder of the stream is set up.
    pub closed spec fn settings(&self) -> Settings {
        self.de.settings()
    }
}

impl<'de, R: Read<'de>> StreamDeserializer<R> {
    /// What is still to be read.
    pub closed spec fn source(&self) -> Source {
        self.de.source()
    }

    /// Creates a new stream from one of the possible input sources.
    ///
    /// Typically it is more convenient to use `Deserializer::from_slice(...).into_iter()`.
    pub fn new(read: R) -> (stream: StreamDeserializer<R>)
        ensures
            stream.source() == read.source(),
            stream.settings() == default_settings(),
    {
        StreamDeserializer { de: Deserializer::new(read) }
    }

    /// How many levels of nesting are left. Where none is left, only items can be decoded that hold
    /// no other items and are no CIDs.
    pub fn remaining_depth(&self) -> (depth: u8)
        ensures
            depth == self.settings().depth,
    {
        self.de.remaining_depth()
    }

    /// Reads the next value, if there is one.
    pub fn next(&mut self) -> (result: Option<Result<Value>>)
        requires
            readable(old(self).settings(), old(self).source()),
        ensures
            ({
                let s = old(self).source();
                let read = grammar::item(
                    s,
                    old(self).settings().depth,
                    old(self).settings().keys,
                );
                match s.first() {
                    Err(e) => {
                        &&& result == Some(Err::<Value, Error>(e))
                        &&& final(self).source() == s
                        &&& final(self).settings() == old(self).settings()
                    },
                    Ok(None) => {
                        &&& result is None
                        &&& final(self).source() == s
                        &&& final(self).settings() == old(self).settings()
                    },
                    Ok(Some(_)) => {
                        &&& result matches Some(value)
                        &&& grammar::agrees(value, read.result)
                        &&& final(self).source() == read.left
                        &&& final(self).settings() == after(old(self).settings(), value)
                    },
                }
            }),
    {
        match self.de.peek() {
            Ok(Some(_)) => Some(self.de.deserialize_any()),
            Ok(None) => None,
            Err(e) => Some(Err(e)),
        }
    }
}

impl<'de, R: Offset<'de>> StreamDeserializer<R> {
    /// Returns the current offset in the reader.
    pub fn byte_offset(&self) -> (offset: usize)
        ensures
            offset == self.source().offset,
    {
        self.de.byte_offset()
    }
}

} // verus!
