//! Decoded data.

use vstd::prelude::*;
use crate::grammar::{Form, Head, Item};
use crate::read::EitherLifetime;

verus! {

/// A text that lives either as long as a borrow of the reader, or as long as the input.
#[derive(Clone, Copy, Debug)]
pub enum EitherStr<'short, 'long> {
    Short(&'short str),
    Long(&'long str),
}

impl<'short, 'long> View for EitherStr<'short, 'long> {
    type V = Seq<char>;

    open spec fn view(&self) -> Seq<char> {
        match self {
            EitherStr::Short(text) => text@,
            EitherStr::Long(text) => text@,
        }
    }
}

/// The head of a data item: all of it, unless it holds other items.
#[derive(Debug)]
pub enum Token<'short, 'long> {
    U8(u8),
    U16(u16),
    U32(u32),
    U64(u64),
    I8(i8),
    I16(i16),
    I32(i32),
    I64(i64),
    I128(i128),
    Bytes(EitherLifetime<'short, 'long>),
    Str(EitherStr<'short, 'long>),
    /// An array of so many elements.
    Array(usize),
    /// An array that ends with a break.
    IndefiniteArray,
    /// A map of so many entries.
    Mapping(usize),
    /// A map that ends with a break.
    IndefiniteMapping,
    /// The tag of a CID.
    Cid,
    Bool(bool),
    Null,
    /// The bits of a half-precision number.
    F16(u16),
    /// The bits of a single-precision number.
    F32(u32),
    /// The bits of a double-precision number.
    F64(u64),
}

impl<'short, 'long> View for Token<'short, 'long> {
    type V = Head;

    open spec fn view(&self) -> Head {
        match self {
            Token::U8(n) => Head::U8(*n),
            Token::U16(n) => Head::U16(*n),
            Token::U32(n) => Head::U32(*n),
            Token::U64(n) => Head::U64(*n),
            Token::I8(n) => Head::I8(*n),
            Token::I16(n) => Head::I16(*n),
            Token::I32(n) => Head::I32(*n),
            Token::I64(n) => Head::I64(*n),
            Token::I128(n) => Head::I128(*n),
            Token::Bytes(bytes) => Head::Bytes(bytes@),
            Token::Str(text) => Head::Str(text@),
            Token::Array(len) => Head::Array(*len as nat),
            Token::IndefiniteArray => Head::IndefiniteArray,
            Token::Mapping(len) => Head::Mapping(*len as nat),
            Token::IndefiniteMapping => Head::IndefiniteMapping,
            Token::Cid => Head::Cid,
            Token::Bool(b) => Head::Bool(*b),
            Token::Null => Head::Null,
            Token::F16(bits) => Head::F16(*bits),
            Token::F32(bits) => Head::F32(*bits),
            Token::F64(bits) => Head::F64(*bits),
        }
    }
}

/// The ways in which an enum is written.
#[derive(Clone, Copy, PartialEq, Eq, Debug)]
pub enum EnumForm {
    /// An array of so many elements: the variant and its content.
    Array(usize),
    /// The same, in an array that ends with a break.
    IndefiniteArray,
    /// A map of one entry: the variant is its key and the content its value.
    Mapping,
    /// The variant on its own.
    Unit,
}

impl View for EnumForm {
    type V = Form;

    open spec fn view(&self) -> Form {
        match self {
            EnumForm::Array(len) => Form::Array(*len as nat),
            EnumForm::IndefiniteArray => Form::IndefiniteArray,
            EnumForm::Mapping => Form::Mapping,
            EnumForm::Unit => Form::Unit,
        }
    }
}

/// A data item as a whole.
#[derive(Debug, PartialEq)]
pub enum Value {
    Null,
    Bool(bool),
    Integer(i128),
    /// The bits of a half-precision number.
    F16(u16),
    /// The bits of a single-precision number.
    F32(u32),
    /// The bits of a double-precision number.
    F64(u64),
    Bytes(Vec<u8>),
    Str(String),
    List(Vec<Value>),
    Mapping(Vec<(Value, Value)>),
    /// The bytes of a CID.
    Link(Vec<u8>),
}

impl View for Value {
    type V = Item;

    open spec fn view(&self) -> Item {
        self.item()
    }
}

impl Value {
    /// The item that the value stands for.
    pub open spec fn item(self) -> Item
        decreases self,
    {
        match self {
            Value::Null => Item::Null,
            Value::Bool(b) => Item::Bool(b),
            Value::Integer(n) => Item::Integer(n as int),
            Value::F16(bits) => Item::F16(bits),
            Value::F32(bits) => Item::F32(bits),
            Value::F64(bits) => Item::F64(bits),
            Value::Bytes(bytes) => Item::Bytes(bytes@),
            Value::Str(text) => Item::Str(text@),
            Value::List(elements) => Item::List(
                Seq::new(
                    elements@.len(),
                    |i: int|
                        if 0 <= i < elements@.len() {
                            elements@[i].item()
                        } else {
                            Item::Null
                        },
                ),
            ),
            Value::Mapping(entries) => Item::Mapping(
                Seq::new(
                    entries@.len(),
                    |i: int|
                        if 0 <= i < entries@.len() {
                            (entries@[i].0.item(), entries@[i].1.item())
                        } else {
                            (Item::Null, Item::Null)
                        },
                ),
            ),
            Value::Link(bytes) => Item::Link(bytes@),
        }
    }
}

/// The items that values stand for.
pub open spec fn items(values: Seq<Value>) -> Seq<Item> {
    Seq::new(values.len(), |i: int| values[i]@)
}

/// The pairs of items that pairs of values stand for.
pub open spec fn pairs(values: Seq<(Value, Value)>) -> Seq<(Item, Item)> {
    Seq::new(values.len(), |i: int| (values[i].0@, values[i].1@))
}

/// A list stands for the list of what its elements stand for.
pub proof fn list_item(elements: Vec<Value>)
    ensures
        Value::List(elements)@ == Item::List(items(elements@)),
{
    reveal_with_fuel(Value::item, 2);
    assert(Value::List(elements).item()->List_0 =~= items(elements@));
}

/// A map stands for the map of what its entries stand for.
pub proof fn mapping_item(entries: Vec<(Value, Value)>)
    ensures
        Value::Mapping(entries)@ == Item::Mapping(pairs(entries@)),
{
    reveal_with_fuel(Value::item, 2);
    assert(Value::Mapping(entries).item()->Mapping_0 =~= pairs(entries@));
}

} // verus!
