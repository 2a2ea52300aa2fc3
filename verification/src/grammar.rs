//! The language that the decoder accepts, as functions of the source that is read.

use vstd::prelude::*;
use crate::error::{Error, ErrorCode, Result};
use crate::read::Source;

verus! {

/// What a reading step gives, and the source that it leaves behind.
#[verifier::ext_equal]
pub struct Step<T> {
    pub result: Result<T>,
    pub left: Source,
}

/// Whether a result shows what a reading step gives.
pub open spec fn agrees<T: View>(result: Result<T>, given: Result<T::V>) -> bool {
    match result {
        Ok(value) => given == Ok::<T::V, Error>(value@),
        Err(e) => given == Err::<T::V, Error>(e),
    }
}

/// The initial byte of a data item with what belongs to it, short of the items that it holds.
#[verifier::ext_equal]
pub enum Head {
    U8(u8),
    U16(u16),
    U32(u32),
    U64(u64),
    I8(i8),
    I16(i16),
    I32(i32),
    I64(i64),
    I128(i128),
    Bytes(Seq<u8>),
    Str(Seq<char>),
    /// An array of so many elements.
    Array(nat),
    /// An array that ends with a break.
    IndefiniteArray,
    /// A map of so many entries.
    Mapping(nat),
    /// A map that ends with a break.
    IndefiniteMapping,
    /// The tag of a CID.
    Cid,
    Bool(bool),
    Null,
    /// The bits of a half-precision number.
    F16(u16),
    /// The bits of a single-precision number.
    F32(u32),
    /// The bits of a double-precision number.
    F64(u64),
}

/// A data item as a whole.
#[verifier::ext_equal]
pub enum Item {
    Null,
    Bool(bool),
    Integer(int),
    F16(u16),
    F32(u32),
    F64(u64),
    Bytes(Seq<u8>),
    Str(Seq<char>),
    List(Seq<Item>),
    Mapping(Seq<(Item, Item)>),
    /// The bytes of a CID.
    Link(Seq<u8>),
}

/// The number that bytes stand for, the most significant byte first.
pub open spec fn big_endian(bytes: Seq<u8>) -> nat
    decreases bytes.len(),
{
    if bytes.len() == 0 {
        0
    } else {
        big_endian(bytes.drop_last()) * 256 + bytes.last() as nat
    }
}

/// Reads `n` bytes.
pub open spec fn bytes(s: Source, n: int) -> Step<Seq<u8>> {
    if n > s.rest.len() {
        Step { result: Err(s.shortage()), left: s }
    } else {
        Step { result: Ok(s.rest.take(n)), left: s.advance(n) }
    }
}

/// Reads a number of `n` bytes.
pub open spec fn number(s: Source, n: int) -> Step<nat> {
    if n > s.rest.len() {
        Step { result: Err(s.shortage()), left: s }
    } else {
        Step { result: Ok(big_endian(s.rest.take(n))), left: s.advance(n) }
    }
}

/// The major type of an initial byte.
pub open spec fn major(byte: u8) -> int {
    byte as int / 32
}

/// The additional information of an initial byte.
pub open spec fn info(byte: u8) -> int {
    byte as int % 32
}

/// Over how many bytes the argument stretches that additional information up to 27 announces.
pub open spec fn width(info: int) -> int {
    if info < 24 {
        0
    } else if info == 24 {
        1
    } else if info == 25 {
        2
    } else if info == 26 {
        4
    } else {
        8
    }
}

/// Reads the argument of an initial byte.
pub open spec fn argument(s: Source, info: int) -> Step<nat> {
    if info < 24 {
        Step { result: Ok(info as nat), left: s }
    } else {
        number(s, width(info))
    }
}

/// Reads an argument that is a length.
pub open spec fn length(s: Source, info: int) -> Step<nat> {
    let read = argument(s, info);
    match read.result {
        Ok(n) => if n > usize::MAX {
            Step { result: Err(read.left.error(ErrorCode::LengthOutOfRange)), left: read.left }
        } else {
            read
        },
        Err(_) => read,
    }
}

/// An unsigned integer, in the narrowest type that holds every argument of its width.
pub open spec fn unsigned(s: Source, info: int) -> Step<Head> {
    let read = argument(s, info);
    match read.result {
        Ok(n) => {
            let head = if width(info) <= 1 {
                Head::U8(n as u8)
            } else if width(info) == 2 {
                Head::U16(n as u16)
            } else if width(info) == 4 {
                Head::U32(n as u32)
            } else {
                Head::U64(n as u64)
            };
            Step { result: Ok(head), left: read.left }
        },
        Err(e) => Step { result: Err(e), left: read.left },
    }
}

/// A negative integer: the argument `n` stands for `-1 - n`.
pub open spec fn negative(s: Source, info: int) -> Step<Head> {
    let read = argument(s, info);
    match read.result {
        Ok(n) => {
            let head = if width(info) == 0 {
                Head::I8((-1 - n) as i8)
            } else if width(info) == 1 {
                Head::I16((-1 - n) as i16)
            } else if width(info) == 2 {
                Head::I32((-1 - n) as i32)
            } else if width(info) == 4 || n <= i64::MAX {
                Head::I64((-1 - n) as i64)
            } else {
                Head::I128((-1 - n) as i128)
            };
            Step { result: Ok(head), left: read.left }
        },
        Err(e) => Step { result: Err(e), left: read.left },
    }
}

/// Reads pieces of a string of the given major type up to the break, and appends them to `held`.
pub open spec fn pieces(s: Source, kind: int, held: Seq<u8>) -> Step<Seq<u8>>
    decreases s.rest.len(),
{
    if s.rest.len() == 0 {
        Step { result: Err(s.shortage()), left: s }
    } else {
        let byte = s.rest[0];
        let s1 = s.advance(1);
        if byte == 0xff {
            Step { result: Ok(held), left: s1 }
        } else if major(byte) != kind || info(byte) > 27 {
            Step { result: Err(s1.error(ErrorCode::UnexpectedCode)), left: s1 }
        } else {
            let read = length(s1, info(byte));
            let s2 = read.left;
            match read.result {
                Ok(n) => if n > s2.rest.len() {
                    Step { result: Err(s2.shortage()), left: s2 }
                } else if !s2.has_room(held.len(), n) {
                    Step { result: Err(s2.error(ErrorCode::ScratchTooSmall)), left: s2 }
                } else {
                    pieces(s2.advance(n as int), kind, held + s2.rest.take(n as int))
                },
                Err(e) => Step { result: Err(e), left: s2 },
            }
        }
    }
}

/// Whether the first `n` bytes, and no more of them, are valid UTF-8.
pub open spec fn is_valid_up_to(bytes: Seq<u8>, n: nat) -> bool {
    &&& n <= bytes.len()
    &&& vstd::utf8::valid_utf8(bytes.take(n as int))
    &&& forall|m: int|
        n < m <= bytes.len() ==> !vstd::utf8::valid_utf8(#[trigger] bytes.take(m))
}

/// How many bytes from the start are valid UTF-8.
pub open spec fn valid_up_to(bytes: Seq<u8>) -> nat {
    choose|n: nat| is_valid_up_to(bytes, n)
}

/// The bytes are valid up to one place only.
pub proof fn lemma_valid_up_to(bytes: Seq<u8>, n: nat)
    requires
        is_valid_up_to(bytes, n),
    ensures
        valid_up_to(bytes) == n,
{
    let m = valid_up_to(bytes);
    assert(is_valid_up_to(bytes, m));
    if m < n {
        assert(!vstd::utf8::valid_utf8(bytes.take(n as int)));
    } else if n < m {
        assert(!vstd::utf8::valid_utf8(bytes.take(m as int)));
    }
}

/// The text of a string whose last byte stands before the place `end`.
pub open spec fn text(bytes: Seq<u8>, end: int) -> Result<Seq<char>> {
    if vstd::utf8::valid_utf8(bytes) {
        Ok(vstd::utf8::decode_utf8(bytes))
    } else {
        Err(
            Error {
                code: ErrorCode::InvalidUtf8,
                offset: (end - (bytes.len() - valid_up_to(bytes))) as u64,
            },
        )
    }
}

/// A byte string.
pub open spec fn byte_string(s: Source, info: int) -> Step<Head> {
    let read = if info == 31 {
        pieces(s, 2, Seq::empty())
    } else {
        let len = length(s, info);
        match len.result {
            Ok(n) => bytes(len.left, n as int),
            Err(e) => Step { result: Err(e), left: len.left },
        }
    };
    match read.result {
        Ok(b) => Step { result: Ok(Head::Bytes(b)), left: read.left },
        Err(e) => Step { result: Err(e), left: read.left },
    }
}

/// The bytes of a text string.
pub open spec fn text_bytes(s: Source, info: int) -> Step<Seq<u8>> {
    if info == 31 {
        pieces(s, 3, Seq::empty())
    } else {
        let len = length(s, info);
        match len.result {
            Ok(n) => if len.left.offset + n > u64::MAX {
                Step { result: Err(len.left.error(ErrorCode::LengthOutOfRange)), left: len.left }
            } else {
                bytes(len.left, n as int)
            },
            Err(e) => Step { result: Err(e), left: len.left },
        }
    }
}

/// A text string.
pub open spec fn text_string(s: Source, info: int) -> Step<Head> {
    let read = text_bytes(s, info);
    match read.result {
        Ok(b) => match text(b, read.left.offset as int) {
            Ok(t) => Step { result: Ok(Head::Str(t)), left: read.left },
            Err(e) => Step { result: Err(e), left: read.left },
        },
        Err(e) => Step { result: Err(e), left: read.left },
    }
}

/// The head of an array.
pub open spec fn array(s: Source, info: int) -> Step<Head> {
    if info == 31 {
        Step { result: Ok(Head::IndefiniteArray), left: s }
    } else {
        let len = length(s, info);
        match len.result {
            Ok(n) => Step { result: Ok(Head::Array(n)), left: len.left },
            Err(e) => Step { result: Err(e), left: len.left },
        }
    }
}

/// The head of a map.
pub open spec fn mapping(s: Source, info: int) -> Step<Head> {
    if info == 31 {
        Step { result: Ok(Head::IndefiniteMapping), left: s }
    } else {
        let len = length(s, info);
        match len.result {
            Ok(n) => Step { result: Ok(Head::Mapping(n)), left: len.left },
            Err(e) => Step { result: Err(e), left: len.left },
        }
    }
}

/// The tag that marks a CID.
pub const CBOR_TAGS_CID: u8 = 42;

/// A tag. Only that of a CID is accepted, and only in two bytes.
pub open spec fn tag(s: Source, info: int) -> Step<Head> {
    if info == 24 {
        let read = number(s, 1);
        match read.result {
            Ok(n) => if n == CBOR_TAGS_CID {
                Step { result: Ok(Head::Cid), left: read.left }
            } else {
                Step { result: Err(read.left.error(ErrorCode::UnexpectedCode)), left: read.left }
            },
            Err(e) => Step { result: Err(e), left: read.left },
        }
    } else if info <= 27 {
        Step { result: Err(s.error(ErrorCode::UnexpectedCode)), left: s }
    } else {
        Step { result: Err(s.error(ErrorCode::UnassignedCode)), left: s }
    }
}

/// A truth value, the null value or a floating-point number.
pub open spec fn simple(s: Source, info: int) -> Step<Head> {
    if info == 20 {
        Step { result: Ok(Head::Bool(false)), left: s }
    } else if info == 21 {
        Step { result: Ok(Head::Bool(true)), left: s }
    } else if info == 22 {
        Step { result: Ok(Head::Null), left: s }
    } else if 25 <= info <= 27 {
        let read = number(s, width(info));
        match read.result {
            Ok(n) => {
                let head = if info == 25 {
                    Head::F16(n as u16)
                } else if info == 26 {
                    Head::F32(n as u32)
                } else {
                    Head::F64(n as u64)
                };
                Step { result: Ok(head), left: read.left }
            },
            Err(e) => Step { result: Err(e), left: read.left },
        }
    } else if info == 23 || info == 31 {
        // The undefined value and the break.
        Step { result: Err(s.error(ErrorCode::UnexpectedCode)), left: s }
    } else {
        Step { result: Err(s.error(ErrorCode::UnassignedCode)), left: s }
    }
}

/// Whether additional information is assigned for the first six major types.
pub open spec fn assigned(major: int, info: int) -> bool {
    info <= 27 || (info == 31 && 2 <= major <= 5)
}

/// Reads the head of a data item.
pub open spec fn head(s: Source) -> Step<Head> {
    if s.rest.len() == 0 {
        Step { result: Err(s.shortage()), left: s }
    } else {
        let major = major(s.rest[0]);
        let info = info(s.rest[0]);
        let s1 = s.advance(1);
        if major == 6 {
            tag(s1, info)
        } else if major == 7 {
            simple(s1, info)
        } else if !assigned(major, info) {
            Step { result: Err(s1.error(ErrorCode::UnassignedCode)), left: s1 }
        } else if major == 0 {
            unsigned(s1, info)
        } else if major == 1 {
            negative(s1, info)
        } else if major == 2 {
            byte_string(s1, info)
        } else if major == 3 {
            text_string(s1, info)
        } else if major == 4 {
            array(s1, info)
        } else {
            mapping(s1, info)
        }
    }
}

/// Whether the next item holds other items or is a CID, and so goes down a level of nesting.
pub open spec fn nests(s: Source) -> bool {
    match head(s).result {
        Ok(Head::Array(_)) => true,
        Ok(Head::IndefiniteArray) => true,
        Ok(Head::Mapping(_)) => true,
        Ok(Head::IndefiniteMapping) => true,
        Ok(Head::Cid) => true,
        _ => false,
    }
}

/// The bytes of a CID: a byte string that is not empty, without its first byte.
pub open spec fn link(s: Source) -> Step<Seq<u8>> {
    if s.rest.len() == 0 {
        Step { result: Err(s.shortage()), left: s }
    } else {
        let s1 = s.advance(1);
        if major(s.rest[0]) != 2 || info(s.rest[0]) > 27 {
            Step { result: Err(s1.error(ErrorCode::UnexpectedCode)), left: s1 }
        } else {
            let len = length(s1, info(s.rest[0]));
            match len.result {
                Ok(n) => if n == 0 {
                    Step {
                        result: Err(len.left.error(ErrorCode::LengthOutOfRange)),
                        left: len.left,
                    }
                } else {
                    let read = bytes(len.left, n as int);
                    match read.result {
                        Ok(b) => Step { result: Ok(b.skip(1)), left: read.left },
                        Err(_) => read,
                    }
                },
                Err(e) => Step { result: Err(e), left: len.left },
            }
        }
    }
}

/// Which keys of a map are accepted.
#[verifier::ext_equal]
pub struct Keys {
    /// Text strings, which name fields and variants.
    pub named: bool,
    /// Unsigned integers, which number them.
    pub packed: bool,
}

/// Whether a key that begins with `byte` is refused.
pub open spec fn refused(keys: Keys, byte: u8) -> bool {
    ||| byte <= 0x1b && !keys.packed
    ||| 0x60 <= byte <= 0x7f && !keys.named
}

/// Looks at a key, if there is anything to look at.
pub open spec fn key(s: Source, keys: Keys) -> Result<()> {
    match s.first() {
        Err(e) => Err(e),
        Ok(Some(byte)) if refused(keys, byte) => Err(s.error(ErrorCode::WrongStructFormat)),
        Ok(_) => Ok(()),
    }
}

/// Looks at a key where a break may stand instead, and tells whether it is a key.
pub open spec fn open_key(s: Source, keys: Keys) -> Result<bool> {
    match s.first() {
        Err(e) => Err(e),
        Ok(None) => Err(s.error(ErrorCode::EofWhileParsingMap)),
        Ok(Some(byte)) => if refused(keys, byte) {
            Err(s.error(ErrorCode::WrongStructFormat))
        } else {
            Ok(byte != 0xff)
        },
    }
}

/// Reads a data item, where `depth` bounds how deeply items are nested.
pub open spec fn item(s: Source, depth: nat, keys: Keys) -> Step<Item>
    decreases depth, 0int, 1int,
{
    let read = head(s);
    let s1 = read.left;
    match read.result {
        Err(e) => Step { result: Err(e), left: s1 },
        Ok(Head::Null) => Step { result: Ok(Item::Null), left: s1 },
        Ok(Head::Bool(b)) => Step { result: Ok(Item::Bool(b)), left: s1 },
        Ok(Head::U8(n)) => Step { result: Ok(Item::Integer(n as int)), left: s1 },
        Ok(Head::U16(n)) => Step { result: Ok(Item::Integer(n as int)), left: s1 },
        Ok(Head::U32(n)) => Step { result: Ok(Item::Integer(n as int)), left: s1 },
        Ok(Head::U64(n)) => Step { result: Ok(Item::Integer(n as int)), left: s1 },
        Ok(Head::I8(n)) => Step { result: Ok(Item::Integer(n as int)), left: s1 },
        Ok(Head::I16(n)) => Step { result: Ok(Item::Integer(n as int)), left: s1 },
        Ok(Head::I32(n)) => Step { result: Ok(Item::Integer(n as int)), left: s1 },
        Ok(Head::I64(n)) => Step { result: Ok(Item::Integer(n as int)), left: s1 },
        Ok(Head::I128(n)) => Step { result: Ok(Item::Integer(n as int)), left: s1 },
        Ok(Head::F16(bits)) => Step { result: Ok(Item::F16(bits)), left: s1 },
        Ok(Head::F32(bits)) => Step { result: Ok(Item::F32(bits)), left: s1 },
        Ok(Head::F64(bits)) => Step { result: Ok(Item::F64(bits)), left: s1 },
        Ok(Head::Bytes(b)) => Step { result: Ok(Item::Bytes(b)), left: s1 },
        Ok(Head::Str(t)) => Step { result: Ok(Item::Str(t)), left: s1 },
        Ok(Head::Array(n)) => list(s1, n, depth, keys),
        Ok(Head::IndefiniteArray) => open_list(s1, depth, keys),
        Ok(Head::Mapping(n)) => table(s1, n, depth, keys),
        Ok(Head::IndefiniteMapping) => open_table(s1, depth, keys),
        Ok(Head::Cid) => tagged_link(s1, depth),
    }
}

/// The step where the levels of nesting are used up.
pub open spec fn too_deep<T>(s: Source) -> Step<T> {
    Step { result: Err(s.error(ErrorCode::RecursionLimitExceeded)), left: s }
}

/// Reads the `n` elements of a list.
pub open spec fn list(s: Source, n: nat, depth: nat, keys: Keys) -> Step<Item>
    decreases depth, 0int, 0int,
{
    if depth <= 1 {
        too_deep(s)
    } else {
        listed(elements(s, n, (depth - 1) as nat, keys, Seq::empty()))
    }
}

/// Reads the elements of a list up to the break.
pub open spec fn open_list(s: Source, depth: nat, keys: Keys) -> Step<Item>
    decreases depth, 0int, 0int,
{
    if depth <= 1 {
        too_deep(s)
    } else {
        listed(open_elements(s, (depth - 1) as nat, keys, Seq::empty()))
    }
}

/// Reads the `n` entries of a map.
pub open spec fn table(s: Source, n: nat, depth: nat, keys: Keys) -> Step<Item>
    decreases depth, 0int, 0int,
{
    if depth <= 1 {
        too_deep(s)
    } else {
        mapped(entries(s, n, (depth - 1) as nat, keys, Seq::empty()))
    }
}

/// Reads the entries of a map up to the break.
pub open spec fn open_table(s: Source, depth: nat, keys: Keys) -> Step<Item>
    decreases depth, 0int, 0int,
{
    if depth <= 1 {
        too_deep(s)
    } else {
        mapped(open_entries(s, (depth - 1) as nat, keys, Seq::empty()))
    }
}

/// Reads the bytes of a CID behind its tag.
pub open spec fn tagged_link(s: Source, depth: nat) -> Step<Item> {
    if depth <= 1 {
        too_deep(s)
    } else {
        linked(link(s))
    }
}

/// The list of some elements.
pub open spec fn listed(read: Step<Seq<Item>>) -> Step<Item> {
    match read.result {
        Ok(items) => Step { result: Ok(Item::List(items)), left: read.left },
        Err(e) => Step { result: Err(e), left: read.left },
    }
}

/// The map of some entries.
pub open spec fn mapped(read: Step<Seq<(Item, Item)>>) -> Step<Item> {
    match read.result {
        Ok(pairs) => Step { result: Ok(Item::Mapping(pairs)), left: read.left },
        Err(e) => Step { result: Err(e), left: read.left },
    }
}

/// The link of some bytes.
pub open spec fn linked(read: Step<Seq<u8>>) -> Step<Item> {
    match read.result {
        Ok(b) => Step { result: Ok(Item::Link(b)), left: read.left },
        Err(e) => Step { result: Err(e), left: read.left },
    }
}

/// Reads `n` elements and appends them to `done`.
pub open spec fn elements(s: Source, n: nat, depth: nat, keys: Keys, done: Seq<Item>) -> Step<
    Seq<Item>,
>
    decreases depth, n, 2int,
{
    if n == 0 {
        Step { result: Ok(done), left: s }
    } else {
        let read = item(s, depth, keys);
        match read.result {
            Ok(element) => elements(read.left, (n - 1) as nat, depth, keys, done.push(element)),
            Err(e) => Step { result: Err(e), left: read.left },
        }
    }
}

/// Reads elements up to the break and appends them to `done`.
pub open spec fn open_elements(s: Source, depth: nat, keys: Keys, done: Seq<Item>) -> Step<
    Seq<Item>,
>
    decreases depth, s.rest.len(), 2int,
{
    match s.first() {
        Err(e) => Step { result: Err(e), left: s },
        Ok(None) => Step { result: Err(s.error(ErrorCode::EofWhileParsingArray)), left: s },
        Ok(Some(byte)) => if byte == 0xff {
            Step { result: Ok(done), left: s.advance(1) }
        } else {
            let read = item(s, depth, keys);
            match read.result {
                Ok(element) if read.left.rest.len() < s.rest.len() => open_elements(
                    read.left,
                    depth,
                    keys,
                    done.push(element),
                ),
                // Does not occur: an item takes at least one byte.
                Ok(_) => arbitrary(),
                Err(e) => Step { result: Err(e), left: read.left },
            }
        },
    }
}

/// Reads a key and a value.
pub open spec fn entry(s: Source, depth: nat, keys: Keys) -> Step<(Item, Item)>
    decreases depth, 0int, 2int,
{
    let key = item(s, depth, keys);
    match key.result {
        Err(e) => Step { result: Err(e), left: key.left },
        Ok(k) => {
            let value = item(key.left, depth, keys);
            match value.result {
                Ok(v) => Step { result: Ok((k, v)), left: value.left },
                Err(e) => Step { result: Err(e), left: value.left },
            }
        },
    }
}

/// Reads `n` entries and appends them to `done`.
pub open spec fn entries(
    s: Source,
    n: nat,
    depth: nat,
    keys: Keys,
    done: Seq<(Item, Item)>,
) -> Step<Seq<(Item, Item)>>
    decreases depth, n, 3int,
{
    if n == 0 {
        Step { result: Ok(done), left: s }
    } else {
        match key(s, keys) {
            Err(e) => Step { result: Err(e), left: s },
            Ok(_) => {
                let read = entry(s, depth, keys);
                match read.result {
                    Ok(pair) => entries(read.left, (n - 1) as nat, depth, keys, done.push(pair)),
                    Err(e) => Step { result: Err(e), left: read.left },
                }
            },
        }
    }
}

/// Reads entries up to the break and appends them to `done`.
pub open spec fn open_entries(
    s: Source,
    depth: nat,
    keys: Keys,
    done: Seq<(Item, Item)>,
) -> Step<Seq<(Item, Item)>>
    decreases depth, s.rest.len(), 3int,
{
    match open_key(s, keys) {
        Err(e) => Step { result: Err(e), left: s },
        Ok(false) => Step { result: Ok(done), left: s.advance(1) },
        Ok(true) => {
            let read = entry(s, depth, keys);
            match read.result {
                Ok(pair) if read.left.rest.len() < s.rest.len() => open_entries(
                    read.left,
                    depth,
                    keys,
                    done.push(pair),
                ),
                // Does not occur: an item takes at least one byte.
                Ok(_) => arbitrary(),
                Err(e) => Step { result: Err(e), left: read.left },
            }
        },
    }
}

/// Tells whether the next item is null. Only null is consumed.
pub open spec fn null(s: Source) -> Step<bool> {
    match s.first() {
        Err(e) => Step { result: Err(e), left: s },
        Ok(Some(0xf6)) => Step { result: Ok(true), left: s.advance(1) },
        Ok(_) => Step { result: Ok(false), left: s },
    }
}

/// Whether a newtype struct of that name marks a CID.
pub open spec fn is_cid_identifier(name: Seq<char>) -> bool {
    name == "$__private__serde__identifier__for__cid"@
}

/// The two bytes in which the tag of a CID is written.
pub const CBOR_TAGS_MAJOR_TYPE_AND_CID: u16 = 0xd82a;

/// Reads the tag of a CID.
pub open spec fn cid_tag(s: Source) -> Step<()> {
    let read = number(s, 2);
    match read.result {
        Ok(n) => if n == CBOR_TAGS_MAJOR_TYPE_AND_CID {
            Step { result: Ok(()), left: read.left }
        } else {
            Step { result: Err(read.left.error(ErrorCode::UnexpectedCode)), left: read.left }
        },
        Err(e) => Step { result: Err(e), left: read.left },
    }
}

/// The ways in which an enum is written.
pub enum Form {
    /// An array of so many elements: the variant and its content.
    Array(nat),
    /// The same, in an array that ends with a break.
    IndefiniteArray,
    /// A map of one entry: the variant is its key and the content its value.
    Mapping,
    /// The variant on its own.
    Unit,
}

/// Reads the head of an enum. The variant on its own has no head, and is looked at as a key is.
pub open spec fn enum_form(s: Source, standard: bool, legacy: bool, keys: Keys) -> Step<Form> {
    match s.first() {
        Err(e) => Step { result: Err(e), left: s },
        Ok(None) => Step { result: Err(s.error(ErrorCode::EofWhileParsingValue)), left: s },
        Ok(Some(byte)) => {
            let s1 = s.advance(1);
            if major(byte) == 4 {
                if !legacy {
                    Step { result: Err(s.error(ErrorCode::WrongEnumFormat)), left: s }
                } else if info(byte) == 31 {
                    Step { result: Ok(Form::IndefiniteArray), left: s1 }
                } else if info(byte) > 27 {
                    Step { result: Err(s1.error(ErrorCode::UnassignedCode)), left: s1 }
                } else {
                    let len = length(s1, info(byte));
                    match len.result {
                        Ok(n) => Step { result: Ok(Form::Array(n)), left: len.left },
                        Err(e) => Step { result: Err(e), left: len.left },
                    }
                }
            } else if byte == 0xa1 {
                if !standard {
                    Step { result: Err(s.error(ErrorCode::WrongEnumFormat)), left: s }
                } else {
                    Step { result: Ok(Form::Mapping), left: s1 }
                }
            } else if !standard && !legacy {
                Step { result: Err(s.error(ErrorCode::WrongEnumFormat)), left: s }
            } else if refused(keys, byte) {
                Step { result: Err(s.error(ErrorCode::WrongStructFormat)), left: s }
            } else {
                Step { result: Ok(Form::Unit), left: s }
            }
        },
    }
}

/// Checks that there is nothing more to read. A byte that is left over is consumed.
pub open spec fn end(s: Source) -> Step<()> {
    match s.first() {
        Err(e) => Step { result: Err(e), left: s },
        Ok(None) => Step { result: Ok(()), left: s },
        Ok(Some(_)) => Step {
            result: Err(s.advance(1).error(ErrorCode::TrailingData)),
            left: s.advance(1),
        },
    }
}

/// How many levels of nesting a new decoder has.
pub const MAX_DEPTH: u8 = 128;

/// A data item that is all there is to read.
pub open spec fn document(s: Source) -> Result<Item> {
    let read = item(s, MAX_DEPTH as nat, Keys { named: true, packed: true });
    match read.result {
        Ok(value) => match end(read.left).result {
            Ok(_) => Ok(value),
            Err(e) => Err(e),
        },
        Err(e) => Err(e),
    }
}

} // verus!
