//! What the single operations of the decoder do.

use vstd::prelude::*;
use crate::access;
use crate::access::{
    Access, Elements, IndefiniteMapAccess, IndefiniteSeqAccess, MapAccess, SeqAccess,
    VariantAccess, VariantAccessMap,
};
use crate::de;
use crate::de::Settings;
use crate::error::{Error, ErrorCode, Result, VariantKind};
use crate::grammar;
use crate::grammar::{Form, Head, Item, Keys, Step};
use crate::laws::failures::found;
use crate::laws::reading;
use crate::laws::writing;
use crate::laws::writing::Writing;
use crate::read::{EitherLifetime, Source};
use crate::value;
use crate::value::{EitherStr, EnumForm, Token, Value};

verus! {

/// The error of a source that has nothing more: that it ended, at its end, or that it failed.
pub open spec fn exhausted(s: Source, code: ErrorCode) -> Error {
    if s.broken {
        Error { code: ErrorCode::Io, offset: 0 }
    } else {
        Error { code, offset: (s.offset + s.rest.len()) as u64 }
    }
}

/// What a look at a source shows, and what consuming leaves.
pub proof fn sources_are_read_in_order(s: Source, n: int)
    requires
        0 <= n <= s.rest.len(),
    ensures
        s.rest.len() > 0 ==> s.first() == Ok::<Option<u8>, Error>(Some(s.rest[0])),
        s.rest.len() == 0 && !s.broken ==> s.first() == Ok::<Option<u8>, Error>(None),
        s.rest.len() == 0 && s.broken ==> s.first() == Err::<Option<u8>, Error>(
            Error { code: ErrorCode::Io, offset: 0 },
        ),
        s.shortage() == exhausted(s, ErrorCode::EofWhileParsingValue),
        s.rest == s.rest.take(n) + s.advance(n).rest,
        s.advance(n).offset == s.offset + n,
        s.advance(n).broken == s.broken,
        s.advance(n).capacity == s.capacity,
        s.advance(n).lends_input == s.lends_input,
        s.advance(n).lends_buffer == s.lends_buffer,
        forall|code: ErrorCode| #[trigger] s.error(code) == found(s, 0, code),
        forall|held: nat, more: nat| #[trigger]
            s.has_room(held, more) <==> writing::has_room(s.capacity, held + more),
{
    assert(s.rest =~= s.rest.take(n) + s.advance(n).rest);
}

/// The head of an enum that is an array is that of the array, and tells as many elements.
pub proof fn enums_in_arrays(s: Source, standard: bool, legacy: bool, keys: Keys)
    requires
        s.rest.len() > 0,
        0x80 <= s.rest[0] <= 0x9f,
    ensures
        !legacy ==> grammar::enum_form(s, standard, legacy, keys) == (Step::<Form> {
            result: Err(found(s, 0, ErrorCode::WrongEnumFormat)),
            left: s,
        }),
        legacy ==> grammar::enum_form(s, standard, legacy, keys).left == grammar::head(s).left,
        legacy ==> match grammar::head(s).result {
            Ok(Head::Array(n)) => grammar::enum_form(s, standard, legacy, keys).result == Ok::<
                Form,
                Error,
            >(Form::Array(n)),
            Ok(Head::IndefiniteArray) => grammar::enum_form(s, standard, legacy, keys).result
                == Ok::<Form, Error>(Form::IndefiniteArray),
            Ok(_) => false,
            Err(e) => grammar::enum_form(s, standard, legacy, keys).result == Err::<Form, Error>(e),
        },
{
}

/// An enum in an array of `n` elements is announced as one, whatever the width of the number.
pub proof fn enums_in_arrays_are_read(
    s: Source,
    n: nat,
    width: nat,
    following: Seq<u8>,
    standard: bool,
    keys: Keys,
)
    requires
        writing::fits(n, width),
        n <= usize::MAX,
        s.rest == writing::numbered(4, n, width) + following,
    ensures
        grammar::enum_form(s, standard, true, keys) == (Step::<Form> {
            result: Ok(Form::Array(n)),
            left: s.advance(1 + width as int),
        }),
        s.advance(1 + width as int).rest == following,
{
    reading::numbered_is_read(s, 4, n, width, following);
    reading::length_is_read(s, 4, n, width, following);
}

/// How enums that are no arrays are told apart.
pub proof fn other_enums(s: Source, standard: bool, legacy: bool, keys: Keys)
    requires
        s.rest.len() == 0 || !(0x80 <= s.rest[0] <= 0x9f),
    ensures
        ({
            let form = grammar::enum_form(s, standard, legacy, keys);
            if s.rest.len() == 0 {
                &&& form.left == s
                &&& form.result == Err::<Form, Error>(exhausted(s, ErrorCode::EofWhileParsingValue))
            } else if s.rest[0] == 0xa1 {
                if standard {
                    form == (Step::<Form> { result: Ok(Form::Mapping), left: s.advance(1) })
                } else {
                    form == (Step::<Form> {
                        result: Err(found(s, 0, ErrorCode::WrongEnumFormat)),
                        left: s,
                    })
                }
            } else {
                &&& form.left == s
                &&& form.result == (if !standard && !legacy {
                    Err::<Form, Error>(found(s, 0, ErrorCode::WrongEnumFormat))
                } else if (s.rest[0] <= 0x1b && !keys.packed) || (0x60 <= s.rest[0] <= 0x7f
                    && !keys.named) {
                    Err(found(s, 0, ErrorCode::WrongStructFormat))
                } else {
                    Ok(Form::Unit)
                })
            }
        }),
{
}

/// An option is null exactly where the item is, and nothing else is consumed.
pub proof fn options(s: Source)
    ensures
        grammar::null(s).result == Ok::<bool, Error>(true) <==> grammar::head(s).result == Ok::<
            Head,
            Error,
        >(Head::Null),
        grammar::null(s).result == Ok::<bool, Error>(true) ==> grammar::null(s).left
            == grammar::head(s).left,
        grammar::null(s).result != Ok::<bool, Error>(true) ==> grammar::null(s).left == s,
        grammar::null(s).result is Err <==> s.rest.len() == 0 && s.broken,
        grammar::null(s).result matches Err(e) ==> e == (Error { code: ErrorCode::Io, offset: 0 }),
{
}

/// The tag of a CID is its two bytes; other bytes are refused behind them.
pub proof fn cid_tags(s: Source)
    ensures
        grammar::cid_tag(s) == (if s.rest.len() < 2 {
            Step::<()> {
                result: Err(exhausted(s, ErrorCode::EofWhileParsingValue)),
                left: s,
            }
        } else if s.rest[0] == 0xd8 && s.rest[1] == 0x2a {
            Step { result: Ok(()), left: s.advance(2) }
        } else {
            Step { result: Err(found(s, 2, ErrorCode::UnexpectedCode)), left: s.advance(2) }
        }),
{
    reveal_with_fuel(grammar::big_endian, 3);
}

/// The one newtype struct that stands for a CID.
pub proof fn one_newtype_struct_is_a_cid(name: Seq<char>)
    ensures
        grammar::is_cid_identifier(name) <==> name == "$__private__serde__identifier__for__cid"@,
{
}

/// Which keys are refused, and where.
pub proof fn keys_are_looked_at(s: Source, keys: Keys)
    ensures
        ({
            let wrong = s.rest.len() > 0 && ((s.rest[0] <= 0x1b && !keys.packed) || (0x60
                <= s.rest[0] <= 0x7f && !keys.named));
            &&& grammar::key(s, keys) == (if wrong {
                Err::<(), Error>(found(s, 0, ErrorCode::WrongStructFormat))
            } else if s.rest.len() == 0 && s.broken {
                Err(Error { code: ErrorCode::Io, offset: 0 })
            } else {
                Ok(())
            })
            &&& grammar::open_key(s, keys) == (if wrong {
                Err::<bool, Error>(found(s, 0, ErrorCode::WrongStructFormat))
            } else if s.rest.len() == 0 {
                Err(exhausted(s, ErrorCode::EofWhileParsingMap))
            } else {
                Ok(s.rest[0] != 0xff)
            })
        }),
{
}

/// Where there is nothing more, a document ends; a byte that is left over is consumed and refused.
pub proof fn documents_end(s: Source)
    ensures
        grammar::end(s) == (if s.rest.len() > 0 {
            Step::<()> {
                result: Err(found(s, 1, ErrorCode::TrailingData)),
                left: s.advance(1),
            }
        } else if s.broken {
            Step { result: Err(Error { code: ErrorCode::Io, offset: 0 }), left: s }
        } else {
            Step { result: Ok(()), left: s }
        }),
{
}

/// A list or a map with a length ends where everything was read that it holds, and nowhere else;
/// one without a length ends with its break.
pub proof fn containers_end(left: nat, eof: ErrorCode, s: Source)
    ensures
        access::counted_end(left, s).left == s,
        left == 0 ==> access::counted_end(left, s).result is Ok,
        left > 0 ==> access::counted_end(left, s).result == Err::<(), Error>(
            found(s, 0, ErrorCode::TrailingData),
        ),
        access::open_end(eof, s) == (if s.rest.len() == 0 {
            Step::<()> { result: Err(exhausted(s, eof)), left: s }
        } else if s.rest[0] == 0xff {
            Step { result: Ok(()), left: s.advance(1) }
        } else {
            Step { result: Err(found(s, 1, ErrorCode::TrailingData)), left: s.advance(1) }
        }),
{
}

/// What the elements of arrays announce, and how they end.
pub proof fn elements_are_announced(counted: SeqAccess, open: IndefiniteSeqAccess, s: Source)
    ensures
        counted.more(s) == Ok::<bool, Error>(counted.left() > 0),
        counted.hint() == Some(counted.left()),
        counted.left() > 0 ==> counted.turned().left() == counted.left() - 1,
        counted.left() == 0 ==> counted.turned().left() == 0,
        counted.end(s) == access::counted_end(counted.left(), s),
        open.more(s) == (if s.rest.len() == 0 {
            Err::<bool, Error>(exhausted(s, ErrorCode::EofWhileParsingArray))
        } else {
            Ok(s.rest[0] != 0xff)
        }),
        open.hint() is None,
        open.end(s) == access::open_end(ErrorCode::EofWhileParsingArray, s),
{
    counted.turned_left();
}

/// How maps and enums end: as what they are written in.
pub proof fn maps_and_enums_end<T: Elements>(
    counted: MapAccess,
    open: IndefiniteMapAccess,
    variant: VariantAccess<T>,
    entry: VariantAccessMap,
    s: Source,
)
    ensures
        counted.end(s) == access::counted_end(counted.left(), s),
        open.end(s) == access::open_end(ErrorCode::EofWhileParsingMap, s),
        variant.end(s) == variant.seq.end(s),
        entry.end(s) == access::counted_end(entry.map.left(), s),
{
}

/// Which errors have a text of their own, and which text.
pub proof fn messages(code: ErrorCode)
    ensures
        code.text() == match code {
            ErrorCode::OnlyBytesInCid => Some("Only bytes can be deserialized into a CID"@),
            ErrorCode::NotCidNewtype => Some(
                "This deserializer must not be called on newtype structs other than one named `"@
                    + "$__private__serde__identifier__for__cid"@ + "`"@,
            ),
            ErrorCode::UnitVariant(VariantKind::Newtype) => Some(
                "invalid type: unit variant, expected "@ + "newtype variant"@,
            ),
            ErrorCode::UnitVariant(VariantKind::Tuple) => Some(
                "invalid type: unit variant, expected "@ + "tuple variant"@,
            ),
            ErrorCode::UnitVariant(VariantKind::Struct) => Some(
                "invalid type: unit variant, expected "@ + "struct variant"@,
            ),
            _ => None,
        },
{
}

/// Strings with their lengths are lent where the source lends its input, and strings in pieces
/// where it lends its scratch buffer.
pub proof fn strings_are_lent(s: Source)
    requires
        s.rest.len() > 0,
    ensures
        0x40 <= s.rest[0] <= 0x5b || 0x60 <= s.rest[0] <= 0x7b ==> de::lent(s) == s.lends_input,
        s.rest[0] == 0x5f || s.rest[0] == 0x7f ==> de::lent(s) == s.lends_buffer,
{
}

/// What is required is there, or its absence is the error.
pub proof fn elements_are_required(more: Result<bool>, s: Source, code: ErrorCode)
    ensures
        access::required(more, s, code) is Ok <==> more == Ok::<bool, Error>(true),
        more == Ok::<bool, Error>(false) ==> access::required(more, s, code) == Err::<(), Error>(
            found(s, 0, code),
        ),
        more matches Err(e) ==> access::required(more, s, code) == Err::<(), Error>(e),
{
}

/// What comes of a visit: its value where the end was reached, its error, or the error of the end.
pub proof fn visits<T, E>(r: core::result::Result<T, E>, s: Source, end: Step<()>)
    ensures
        de::visited(r, s, end).result matches Ok(inner) ==> inner == r,
        de::visited(r, s, end).result is Ok <==> r is Err || end.result is Ok,
        r is Ok ==> de::visited(r, s, end).left == end.left,
        r is Err ==> de::visited(r, s, end).left == s,
        de::visited(r, s, end).result matches Err(e) ==> end.result == Err::<(), Error>(e),
{
}

/// How the settings follow the nesting. A new decoder may go down to 127 levels, and accepts every
/// format; a level is lost for good only where the limit was hit.
pub proof fn nesting_is_counted<T>(settings: Settings, result: Result<T>)
    requires
        settings.depth > 0,
    ensures
        de::default_settings() == (Settings {
            depth: 128,
            keys: Keys { named: true, packed: true },
            standard_enums: true,
            legacy_enums: true,
        }),
        settings.down().depth == settings.depth - 1,
        settings.down().up() == settings,
        settings.up().depth == settings.depth + 1,
        settings.up().keys == settings.keys && settings.down().keys == settings.keys,
        settings.up().standard_enums == settings.standard_enums,
        settings.up().legacy_enums == settings.legacy_enums,
        match result {
            Err(e) if e.code == ErrorCode::RecursionLimitExceeded => de::after(settings, result)
                == settings.down(),
            _ => de::after(settings, result) == settings,
        },
{
}

/// What can be read where no level of nesting is left.
pub proof fn scalars_are_always_readable(settings: Settings, s: Source, w: Writing, rest: Seq<u8>)
    requires
        w.sound(s.capacity),
        s.rest == w.head_bytes() + rest,
        s.offset + s.rest.len() <= u64::MAX,
    ensures
        de::readable(settings, s) <==> settings.depth > 0 || !(w is List || w is OpenList
            || w is Mapping || w is OpenMapping || w is Link),
{
    reading::head_is_read(s, w, rest);
}

/// What is read from slices, and what of it is lent: from a slice, strings with their lengths; from
/// a mutable slice, all strings.
pub proof fn slices_are_read_from_their_start(bytes: Seq<u8>, capacity: nat)
    ensures
        de::slice_source(bytes).rest == bytes,
        de::slice_source(bytes).offset == 0,
        !de::slice_source(bytes).broken,
        de::slice_source(bytes).capacity is None,
        de::mut_slice_source(bytes).rest == bytes,
        de::mut_slice_source(bytes).offset == 0,
        !de::mut_slice_source(bytes).broken,
        de::mut_slice_source(bytes).capacity is None,
        de::scratch_source(bytes, capacity).rest == bytes,
        de::scratch_source(bytes, capacity).offset == 0,
        !de::scratch_source(bytes, capacity).broken,
        de::scratch_source(bytes, capacity).capacity == Some(capacity),
        bytes.len() > 0 ==> {
            let open = bytes[0] == 0x5f || bytes[0] == 0x7f;
            let closed = 0x40 <= bytes[0] <= 0x5b || 0x60 <= bytes[0] <= 0x7b;
            &&& closed ==> de::lent(de::slice_source(bytes))
            &&& open ==> !de::lent(de::slice_source(bytes))
            &&& closed || open ==> de::lent(de::mut_slice_source(bytes))
            &&& closed ==> de::lent(de::scratch_source(bytes, capacity))
            &&& open ==> !de::lent(de::scratch_source(bytes, capacity))
        },
{
}

/// A result agrees with what is given exactly where it shows it.
pub proof fn agreement<T: View>(result: Result<T>, given: Result<T::V>)
    ensures
        grammar::agrees(result, given) <==> match (result, given) {
            (Ok(x), Ok(y)) => x@ == y,
            (Err(x), Err(y)) => x == y,
            _ => false,
        },
{
}

/// Values stand for the items that they are called after, as a whole.
pub proof fn values_stand_for_items(
    b: bool,
    n: i128,
    bits: (u16, u32, u64),
    bytes: Vec<u8>,
    text: String,
    elements: Vec<Value>,
    entries: Vec<(Value, Value)>,
)
    ensures
        Value::Null@ == Item::Null,
        Value::Bool(b)@ == Item::Bool(b),
        Value::Integer(n)@ == Item::Integer(n as int),
        Value::F16(bits.0)@ == Item::F16(bits.0),
        Value::F32(bits.1)@ == Item::F32(bits.1),
        Value::F64(bits.2)@ == Item::F64(bits.2),
        Value::Bytes(bytes)@ == Item::Bytes(bytes@),
        Value::Str(text)@ == Item::Str(text@),
        Value::Link(bytes)@ == Item::Link(bytes@),
        Value::List(elements)@ matches Item::List(items) && items.len() == elements@.len() && (
        forall|i: int| 0 <= i < elements@.len() ==> #[trigger] items[i] == elements@[i]@),
        Value::Mapping(entries)@ matches Item::Mapping(pairs) && pairs.len() == entries@.len() && (
        forall|i: int|
            0 <= i < entries@.len() ==> #[trigger] pairs[i] == (
            entries@[i].0@, entries@[i].1@)),
{
    value::list_item(elements);
    value::mapping_item(entries);
}

/// Tokens stand for the heads that they are called after, and the forms of an enum for forms.
pub proof fn tokens_stand_for_heads<'short, 'long>(
    unsigned: (u8, u16, u32, u64),
    negative: (i8, i16, i32, i64, i128),
    bits: (u16, u32, u64),
    bytes: EitherLifetime<'short, 'long>,
    text: EitherStr<'short, 'long>,
    len: usize,
    b: bool,
)
    ensures
        Token::U8(unsigned.0)@ == Head::U8(unsigned.0),
        Token::U16(unsigned.1)@ == Head::U16(unsigned.1),
        Token::U32(unsigned.2)@ == Head::U32(unsigned.2),
        Token::U64(unsigned.3)@ == Head::U64(unsigned.3),
        Token::I8(negative.0)@ == Head::I8(negative.0),
        Token::I16(negative.1)@ == Head::I16(negative.1),
        Token::I32(negative.2)@ == Head::I32(negative.2),
        Token::I64(negative.3)@ == Head::I64(negative.3),
        Token::I128(negative.4)@ == Head::I128(negative.4),
        Token::F16(bits.0)@ == Head::F16(bits.0),
        Token::F32(bits.1)@ == Head::F32(bits.1),
        Token::F64(bits.2)@ == Head::F64(bits.2),
        Token::Bytes(bytes)@ == Head::Bytes(bytes@),
        Token::Str(text)@ == Head::Str(text@),
        Token::Array(len)@ == Head::Array(len as nat),
        Token::IndefiniteArray@ == Head::IndefiniteArray,
        Token::Mapping(len)@ == Head::Mapping(len as nat),
        Token::IndefiniteMapping@ == Head::IndefiniteMapping,
        Token::Cid@ == Head::Cid,
        Token::Bool(b)@ == Head::Bool(b),
        Token::Null@ == Head::Null,
        EnumForm::Array(len)@ == Form::Array(len as nat),
        EnumForm::IndefiniteArray@ == Form::IndefiniteArray,
        EnumForm::Mapping@ == Form::Mapping,
        EnumForm::Unit@ == Form::Unit,
        match bytes {
            EitherLifetime::Short(b) => bytes@ == b@,
            EitherLifetime::Long(b) => bytes@ == b@,
        },
        match text {
            EitherStr::Short(t) => text@ == t@,
            EitherStr::Long(t) => text@ == t@,
        },
{
}

} // verus!
