//! Access to what arrays, maps and enums hold.

use vstd::prelude::*;
use crate::de;
use crate::de::Deserializer;
use crate::error::{Error, ErrorCode, Result, VariantKind};
use crate::grammar;
use crate::grammar::{Item, Keys, Step};
use crate::laws::progress;
use crate::outside;
use crate::read::{EitherLifetime, Read, Source};
use crate::text;
use crate::value;
use crate::value::Value;

verus! {

/// What an array or a map holds, and how it ends.
pub trait Access: Sized {
    /// Ends the array or the map, where `s` is still to be read.
    spec fn end(&self, s: Source) -> Step<()>;

    /// Checks that everything was read that the array or the map holds, and reads the break where
    /// there is one.
    fn finish<'de, R: Read<'de>>(&self, de: &mut Deserializer<R>) -> (result: Result<()>)
        ensures
            final(de).source() == self.end(old(de).source()).left,
            result == self.end(old(de).source()).result,
            final(de).settings() == old(de).settings(),
    ;
}

/// Ends an array or a map of which `left` elements or entries were not read.
pub open spec fn counted_end(left: nat, s: Source) -> Step<()> {
    if left != 0 {
        Step { result: Err(s.error(ErrorCode::TrailingData)), left: s }
    } else {
        Step { result: Ok(()), left: s }
    }
}

/// Ends an array or a map with a break, where `eof` is the error of there being nothing.
pub open spec fn open_end(eof: ErrorCode, s: Source) -> Step<()> {
    match s.first() {
        Err(e) => Step { result: Err(e), left: s },
        Ok(None) => Step { result: Err(s.error(eof)), left: s },
        Ok(Some(byte)) => Step {
            result: if byte == 0xff {
                Ok(())
            } else {
                Err(s.advance(1).error(ErrorCode::TrailingData))
            },
            left: s.advance(1),
        },
    }
}

/// Checks that nothing is left of an array or a map with a length.
fn finish_counted<'de, R: Read<'de>>(len: usize, de: &Deserializer<R>) -> (result: Result<()>)
    ensures
        result == counted_end(len as nat, de.source()).result,
{
    if len != 0 {
        Err(de.error(ErrorCode::TrailingData))
    } else {
        Ok(())
    }
}

/// Reads the break that ends an array or a map without a length.
fn finish_open<'de, R: Read<'de>>(eof: ErrorCode, de: &mut Deserializer<R>) -> (result: Result<()>)
    ensures
        final(de).source() == open_end(eof, old(de).source()).left,
        result == open_end(eof, old(de).source()).result,
        final(de).settings() == old(de).settings(),
{
    match de.next()? {
        Some(0xff) => Ok(()),
        Some(_) => Err(de.error(ErrorCode::TrailingData)),
        None => Err(de.error(eof)),
    }
}

/// The elements of an array, one after the other.
pub trait Elements: Access {
    /// Whether there is another element, where `s` is still to be read.
    spec fn more(&self, s: Source) -> Result<bool>;

    /// The elements once one more was turned to.
    spec fn turned(&self) -> Self;

    /// How many elements are left, where that is known.
    spec fn hint(&self) -> Option<nat>;

    /// Turns to the next element, if there is one.
    fn next_element<'de, R: Read<'de>>(&mut self, de: &mut Deserializer<R>) -> (result: Result<
        bool,
    >)
        ensures
            result == old(self).more(old(de).source()),
            *final(self) == old(self).turned(),
            final(de).source() == old(de).source(),
            final(de).settings() == old(de).settings(),
    ;

    /// How many elements are left, where that is known.
    fn size_hint(&self) -> (hint: Option<usize>)
        ensures
            match hint {
                Some(len) => self.hint() == Some(len as nat),
                None => self.hint() is None,
            },
    ;
}

/// The elements of an array with a length.
pub struct SeqAccess {
    len: usize,
}

impl Access for SeqAccess {
    open spec fn end(&self, s: Source) -> Step<()> {
        counted_end(self.left(), s)
    }

    fn finish<'de, R: Read<'de>>(&self, de: &mut Deserializer<R>) -> (result: Result<()>) {
        finish_counted(self.len, de)
    }
}

impl Elements for SeqAccess {
    open spec fn more(&self, s: Source) -> Result<bool> {
        Ok(self.left() > 0)
    }

    closed spec fn turned(&self) -> SeqAccess {
        if self.len == 0 {
            *self
        } else {
            SeqAccess { len: (self.len - 1) as usize }
        }
    }

    open spec fn hint(&self) -> Option<nat> {
        Some(self.left())
    }

    fn next_element<'de, R: Read<'de>>(&mut self, de: &mut Deserializer<R>) -> (result: Result<
        bool,
    >) {
        if self.len == 0 {
            return Ok(false);
        }
        self.len = self.len - 1;
        Ok(true)
    }

    fn size_hint(&self) -> (hint: Option<usize>) {
        Some(self.len)
    }
}

impl SeqAccess {
    /// How many elements are left.
    pub closed spec fn left(&self) -> nat {
        self.len as nat
    }

    /// Turning to an element leaves one less.
    pub proof fn turned_left(&self)
        ensures
            self.turned().left() == (if self.left() > 0 {
                self.left() - 1
            } else {
                0
            }),
    {
    }

    /// The elements of an array of `len` elements.
    pub fn new(len: usize) -> (access: SeqAccess)
        ensures
            access.left() == len,
    {
        SeqAccess { len }
    }

    /// Reads the next element, if there is one.
    pub fn next_element_seed<'de, R: Read<'de>>(&mut self, de: &mut Deserializer<R>) -> (result:
        Result<Option<Value>>)
        requires
            old(self).more(old(de).source()) == Ok::<bool, Error>(true) ==> de::readable(
                old(de).settings(),
                old(de).source(),
            ),
        ensures
            ({
                let s = old(de).source();
                if old(self).left() == 0 {
                    &&& result == Ok::<Option<Value>, Error>(None)
                    &&& final(self).left() == 0
                    &&& final(de).source() == s
                } else {
                    let read = grammar::item(s, old(de).settings().depth, old(de).settings().keys);
                    &&& final(self).left() == old(self).left() - 1
                    &&& final(de).source() == read.left
                    &&& match result {
                        Ok(Some(element)) => read.result == Ok::<Item, Error>(element@),
                        Ok(None) => false,
                        Err(e) => read.result == Err::<Item, Error>(e),
                    }
                }
            }),
            final(de).settings() == de::after(old(de).settings(), result),
        decreases old(de).settings().depth, 2nat,
    {
        if !self.next_element(de)? {
            return Ok(None);
        }
        let value = de.deserialize_any()?;
        Ok(Some(value))
    }

    /// Reads the elements that are left.
    pub(crate) fn collect<'de, R: Read<'de>>(&mut self, de: &mut Deserializer<R>) -> (result:
        Result<Vec<Value>>)
        requires
            old(de).settings().depth > 0,
        ensures
            ({
                let read = grammar::elements(
                    old(de).source(),
                    old(self).left(),
                    old(de).settings().depth,
                    old(de).settings().keys,
                    Seq::empty(),
                );
                &&& final(de).source() == read.left
                &&& match result {
                    Ok(values) => {
                        &&& read.result == Ok::<Seq<Item>, Error>(value::items(values@))
                        &&& final(self).left() == 0
                    },
                    Err(e) => read.result == Err::<Seq<Item>, Error>(e),
                }
            }),
            final(de).settings() == de::after(old(de).settings(), result),
        decreases old(de).settings().depth, 3nat,
    {
        let mut values: Vec<Value> = Vec::new();
        assert(value::items(values@) =~= Seq::empty());
        loop
            invariant
                grammar::elements(
                    old(de).source(),
                    old(self).left(),
                    old(de).settings().depth,
                    old(de).settings().keys,
                    Seq::empty(),
                ) == grammar::elements(
                    de.source(),
                    self.left(),
                    old(de).settings().depth,
                    old(de).settings().keys,
                    value::items(values@),
                ),
                de.settings() == old(de).settings(),
                old(de).settings().depth > 0,
            decreases self.left(),
        {
            match self.next_element_seed(de)? {
                None => return Ok(values),
                Some(element) => {
                    let ghost before = values@;
                    values.push(element);
                    assert(value::items(values@) =~= value::items(before).push(element@));
                },
            }
        }
    }
}

/// The elements of an array that ends with a break.
pub struct IndefiniteSeqAccess;

impl Access for IndefiniteSeqAccess {
    open spec fn end(&self, s: Source) -> Step<()> {
        open_end(ErrorCode::EofWhileParsingArray, s)
    }

    fn finish<'de, R: Read<'de>>(&self, de: &mut Deserializer<R>) -> (result: Result<()>) {
        finish_open(ErrorCode::EofWhileParsingArray, de)
    }
}

impl Elements for IndefiniteSeqAccess {
    open spec fn more(&self, s: Source) -> Result<bool> {
        match s.first() {
            Err(e) => Err(e),
            Ok(None) => Err(s.error(ErrorCode::EofWhileParsingArray)),
            Ok(Some(byte)) => Ok(byte != 0xff),
        }
    }

    open spec fn turned(&self) -> IndefiniteSeqAccess {
        *self
    }

    open spec fn hint(&self) -> Option<nat> {
        None
    }

    fn next_element<'de, R: Read<'de>>(&mut self, de: &mut Deserializer<R>) -> (result: Result<
        bool,
    >) {
        match de.peek()? {
            Some(0xff) => Ok(false),
            Some(_) => Ok(true),
            None => Err(de.error(ErrorCode::EofWhileParsingArray)),
        }
    }

    fn size_hint(&self) -> (hint: Option<usize>) {
        None
    }
}

impl IndefiniteSeqAccess {
    /// Reads the next element, if there is one. The break is not consumed.
    pub fn next_element_seed<'de, R: Read<'de>>(&mut self, de: &mut Deserializer<R>) -> (result:
        Result<Option<Value>>)
        requires
            old(self).more(old(de).source()) == Ok::<bool, Error>(true) ==> de::readable(
                old(de).settings(),
                old(de).source(),
            ),
        ensures
            ({
                let s = old(de).source();
                match old(self).more(s) {
                    Err(e) => {
                        &&& result == Err::<Option<Value>, Error>(e)
                        &&& final(de).source() == s
                    },
                    Ok(false) => {
                        &&& result == Ok::<Option<Value>, Error>(None)
                        &&& final(de).source() == s
                    },
                    Ok(true) => {
                        let read = grammar::item(
                            s,
                            old(de).settings().depth,
                            old(de).settings().keys,
                        );
                        &&& final(de).source() == read.left
                        &&& match result {
                            Ok(Some(element)) => read.result == Ok::<Item, Error>(element@),
                            Ok(None) => false,
                            Err(e) => read.result == Err::<Item, Error>(e),
                        }
                    },
                }
            }),
            final(de).settings() == de::after(old(de).settings(), result),
        decreases old(de).settings().depth, 2nat,
    {
        if !self.next_element(de)? {
            return Ok(None);
        }
        let value = de.deserialize_any()?;
        Ok(Some(value))
    }

    /// Reads the elements that are left, and the break.
    pub(crate) fn collect<'de, R: Read<'de>>(&mut self, de: &mut Deserializer<R>) -> (result:
        Result<Vec<Value>>)
        requires
            old(de).settings().depth > 0,
        ensures
            ({
                let read = grammar::open_elements(
                    old(de).source(),
                    old(de).settings().depth,
                    old(de).settings().keys,
                    Seq::empty(),
                );
                &&& final(de).source() == read.left
                &&& match result {
                    Ok(values) => read.result == Ok::<Seq<Item>, Error>(value::items(values@)),
                    Err(e) => read.result == Err::<Seq<Item>, Error>(e),
                }
            }),
            final(de).settings() == de::after(old(de).settings(), result),
        decreases old(de).settings().depth, 3nat,
    {
        let mut values: Vec<Value> = Vec::new();
        assert(value::items(values@) =~= Seq::empty());
        loop
            invariant
                grammar::open_elements(
                    old(de).source(),
                    old(de).settings().depth,
                    old(de).settings().keys,
                    Seq::empty(),
                ) == grammar::open_elements(
                    de.source(),
                    old(de).settings().depth,
                    old(de).settings().keys,
                    value::items(values@),
                ),
                de.settings() == old(de).settings(),
                old(de).settings().depth > 0,
            decreases de.source().rest.len(),
        {
            proof {
                progress::item_progress(de.source(), de.settings().depth, de.settings().keys);
            }
            match self.next_element_seed(de)? {
                None => {
                    self.finish(de)?;
                    return Ok(values);
                },
                Some(element) => {
                    let ghost before = values@;
                    values.push(element);
                    assert(value::items(values@) =~= value::items(before).push(element@));
                },
            }
        }
    }
}

/// Checks that a key may begin with `byte`, which is the next to be read.
pub(crate) fn check_key<'de, R: Read<'de>>(
    byte: u8,
    accept_named: bool,
    accept_packed: bool,
    de: &Deserializer<R>,
) -> (result: Result<()>)
    ensures
        result == (if grammar::refused(Keys { named: accept_named, packed: accept_packed }, byte) {
            Err::<(), Error>(de.source().error(ErrorCode::WrongStructFormat))
        } else {
            Ok::<(), Error>(())
        }),
{
    match byte {
        0x00..=0x1b if !accept_packed => Err(de.error(ErrorCode::WrongStructFormat)),
        0x60..=0x7f if !accept_named => Err(de.error(ErrorCode::WrongStructFormat)),
        _ => Ok(()),
    }
}

/// Looks at a key, if there is anything to look at.
fn look_at_key<'de, R: Read<'de>>(
    accept_named: bool,
    accept_packed: bool,
    de: &mut Deserializer<R>,
) -> (result: Result<()>)
    ensures
        result == grammar::key(
            old(de).source(),
            Keys { named: accept_named, packed: accept_packed },
        ),
        final(de).source() == old(de).source(),
        final(de).settings() == old(de).settings(),
{
    match de.peek()? {
        Some(byte) => check_key(byte, accept_named, accept_packed, de),
        None => Ok(()),
    }
}

/// The entries of a map with a length.
pub struct MapAccess {
    len: usize,
    accept_named: bool,
    accept_packed: bool,
}

impl Access for MapAccess {
    open spec fn end(&self, s: Source) -> Step<()> {
        counted_end(self.left(), s)
    }

    fn finish<'de, R: Read<'de>>(&self, de: &mut Deserializer<R>) -> (result: Result<()>) {
        finish_counted(self.len, de)
    }
}

impl MapAccess {
    /// How many entries are left.
    pub closed spec fn left(&self) -> nat {
        self.len as nat
    }

    /// Which keys are accepted.
    pub closed spec fn keys(&self) -> Keys {
        Keys { named: self.accept_named, packed: self.accept_packed }
    }

    /// The entries of a map of `len` entries, with the keys that `de` accepts.
    pub fn new<'de, R: Read<'de>>(len: usize, de: &Deserializer<R>) -> (access: MapAccess)
        ensures
            access.left() == len,
            access.keys() == de.settings().keys,
    {
        MapAccess { len, accept_named: de.accept_named(), accept_packed: de.accept_packed() }
    }

    /// How many entries are left.
    pub fn size_hint(&self) -> (hint: Option<usize>)
        ensures
            hint matches Some(len) && len == self.left(),
    {
        Some(self.len)
    }

    /// Turns to the next entry, if there is one, and looks at its key.
    pub fn next_key<'de, R: Read<'de>>(&mut self, de: &mut Deserializer<R>) -> (result: Result<
        bool,
    >)
        ensures
            ({
                let s = old(de).source();
                if old(self).left() == 0 {
                    &&& result == Ok::<bool, Error>(false)
                    &&& final(self).left() == 0
                } else {
                    &&& final(self).left() == old(self).left() - 1
                    &&& result == match grammar::key(s, old(self).keys()) {
                        Ok(_) => Ok::<bool, Error>(true),
                        Err(e) => Err(e),
                    }
                }
            }),
            final(self).keys() == old(self).keys(),
            final(de).source() == old(de).source(),
            final(de).settings() == old(de).settings(),
    {
        if self.len == 0 {
            return Ok(false);
        }
        self.len = self.len - 1;
        look_at_key(self.accept_named, self.accept_packed, de)?;
        Ok(true)
    }

    /// Reads the next key, if there is one.
    pub fn next_key_seed<'de, R: Read<'de>>(&mut self, de: &mut Deserializer<R>) -> (result: Result<
        Option<Value>,
    >)
        requires
            old(self).left() > 0 && grammar::key(old(de).source(), old(self).keys()) is Ok
                ==> de::readable(old(de).settings(), old(de).source()),
        ensures
            ({
                let s = old(de).source();
                let read = grammar::item(s, old(de).settings().depth, old(de).settings().keys);
                if old(self).left() == 0 {
                    &&& result == Ok::<Option<Value>, Error>(None)
                    &&& final(self).left() == 0
                    &&& final(de).source() == s
                } else {
                    &&& final(self).left() == old(self).left() - 1
                    &&& match grammar::key(s, old(self).keys()) {
                        Err(e) => {
                            &&& result == Err::<Option<Value>, Error>(e)
                            &&& final(de).source() == s
                        },
                        Ok(_) => {
                            &&& final(de).source() == read.left
                            &&& match result {
                                Ok(Some(key)) => read.result == Ok::<Item, Error>(key@),
                                Ok(None) => false,
                                Err(e) => read.result == Err::<Item, Error>(e),
                            }
                        },
                    }
                }
            }),
            final(self).keys() == old(self).keys(),
            final(de).settings() == de::after(old(de).settings(), result),
        decreases old(de).settings().depth, 2nat,
    {
        if !self.next_key(de)? {
            return Ok(None);
        }
        let key = de.deserialize_any()?;
        Ok(Some(key))
    }

    /// Reads the entries that are left.
    pub(crate) fn collect<'de, R: Read<'de>>(&mut self, de: &mut Deserializer<R>) -> (result:
        Result<Vec<(Value, Value)>>)
        requires
            old(de).settings().depth > 0,
            old(self).keys() == old(de).settings().keys,
        ensures
            ({
                let read = grammar::entries(
                    old(de).source(),
                    old(self).left(),
                    old(de).settings().depth,
                    old(de).settings().keys,
                    Seq::empty(),
                );
                &&& final(de).source() == read.left
                &&& match result {
                    Ok(values) => {
                        &&& read.result == Ok::<Seq<(Item, Item)>, Error>(value::pairs(values@))
                        &&& final(self).left() == 0
                    },
                    Err(e) => read.result == Err::<Seq<(Item, Item)>, Error>(e),
                }
            }),
            final(de).settings() == de::after(old(de).settings(), result),
        decreases old(de).settings().depth, 3nat,
    {
        let mut values: Vec<(Value, Value)> = Vec::new();
        assert(value::pairs(values@) =~= Seq::empty());
        loop
            invariant
                grammar::entries(
                    old(de).source(),
                    old(self).left(),
                    old(de).settings().depth,
                    old(de).settings().keys,
                    Seq::empty(),
                ) == grammar::entries(
                    de.source(),
                    self.left(),
                    old(de).settings().depth,
                    old(de).settings().keys,
                    value::pairs(values@),
                ),
                self.keys() == old(de).settings().keys,
                de.settings() == old(de).settings(),
                old(de).settings().depth > 0,
            decreases self.left(),
        {
            proof {
                progress::entry_progress(de.source(), de.settings().depth, de.settings().keys);
            }
            match self.next_key_seed(de)? {
                None => return Ok(values),
                Some(key) => {
                    let value = de.deserialize_any()?;
                    let ghost before = values@;
                    values.push((key, value));
                    assert(value::pairs(values@) =~= value::pairs(before).push((key@, value@)));
                },
            }
        }
    }
}

/// The entries of a map that ends with a break.
pub struct IndefiniteMapAccess {
    accept_named: bool,
    accept_packed: bool,
}

impl Access for IndefiniteMapAccess {
    open spec fn end(&self, s: Source) -> Step<()> {
        open_end(ErrorCode::EofWhileParsingMap, s)
    }

    fn finish<'de, R: Read<'de>>(&self, de: &mut Deserializer<R>) -> (result: Result<()>) {
        finish_open(ErrorCode::EofWhileParsingMap, de)
    }
}

impl IndefiniteMapAccess {
    /// Which keys are accepted.
    pub closed spec fn keys(&self) -> Keys {
        Keys { named: self.accept_named, packed: self.accept_packed }
    }

    /// The entries of a map, with the keys that `de` accepts.
    pub fn new<'de, R: Read<'de>>(de: &Deserializer<R>) -> (access: IndefiniteMapAccess)
        ensures
            access.keys() == de.settings().keys,
    {
        IndefiniteMapAccess { accept_named: de.accept_named(), accept_packed: de.accept_packed() }
    }

    /// Looks at the next key, if there is one. The break is not consumed.
    pub fn next_key<'de, R: Read<'de>>(&self, de: &mut Deserializer<R>) -> (result: Result<bool>)
        ensures
            result == grammar::open_key(old(de).source(), self.keys()),
            final(de).source() == old(de).source(),
            final(de).settings() == old(de).settings(),
    {
        match de.peek()? {
            Some(byte) => {
                check_key(byte, self.accept_named, self.accept_packed, de)?;
                Ok(byte != 0xff)
            },
            None => Err(de.error(ErrorCode::EofWhileParsingMap)),
        }
    }

    /// Reads the next key, if there is one. The break is not consumed.
    pub fn next_key_seed<'de, R: Read<'de>>(&self, de: &mut Deserializer<R>) -> (result: Result<
        Option<Value>,
    >)
        requires
            grammar::open_key(old(de).source(), self.keys()) == Ok::<bool, Error>(true)
                ==> de::readable(old(de).settings(), old(de).source()),
        ensures
            ({
                let s = old(de).source();
                let read = grammar::item(s, old(de).settings().depth, old(de).settings().keys);
                match grammar::open_key(s, self.keys()) {
                    Err(e) => {
                        &&& result == Err::<Option<Value>, Error>(e)
                        &&& final(de).source() == s
                    },
                    Ok(false) => {
                        &&& result == Ok::<Option<Value>, Error>(None)
                        &&& final(de).source() == s
                    },
                    Ok(true) => {
                        &&& final(de).source() == read.left
                        &&& match result {
                            Ok(Some(key)) => read.result == Ok::<Item, Error>(key@),
                            Ok(None) => false,
                            Err(e) => read.result == Err::<Item, Error>(e),
                        }
                    },
                }
            }),
            final(de).settings() == de::after(old(de).settings(), result),
        decreases old(de).settings().depth, 2nat,
    {
        if !self.next_key(de)? {
            return Ok(None);
        }
        let key = de.deserialize_any()?;
        Ok(Some(key))
    }

    /// Reads the entries that are left, and the break.
    pub(crate) fn collect<'de, R: Read<'de>>(&self, de: &mut Deserializer<R>) -> (result: Result<
        Vec<(Value, Value)>,
    >)
        requires
            old(de).settings().depth > 0,
            self.keys() == old(de).settings().keys,
        ensures
            ({
                let read = grammar::open_entries(
                    old(de).source(),
                    old(de).settings().depth,
                    old(de).settings().keys,
                    Seq::empty(),
                );
                &&& final(de).source() == read.left
                &&& match result {
                    Ok(values) => read.result == Ok::<Seq<(Item, Item)>, Error>(
                        value::pairs(values@),
                    ),
                    Err(e) => read.result == Err::<Seq<(Item, Item)>, Error>(e),
                }
            }),
            final(de).settings() == de::after(old(de).settings(), result),
        decreases old(de).settings().depth, 3nat,
    {
        let mut values: Vec<(Value, Value)> = Vec::new();
        assert(value::pairs(values@) =~= Seq::empty());
        loop
            invariant
                grammar::open_entries(
                    old(de).source(),
                    old(de).settings().depth,
                    old(de).settings().keys,
                    Seq::empty(),
                ) == grammar::open_entries(
                    de.source(),
                    old(de).settings().depth,
                    old(de).settings().keys,
                    value::pairs(values@),
                ),
                self.keys() == old(de).settings().keys,
                de.settings() == old(de).settings(),
                old(de).settings().depth > 0,
            decreases de.source().rest.len(),
        {
            proof {
                progress::entry_progress(de.source(), de.settings().depth, de.settings().keys);
            }
            match self.next_key_seed(de)? {
                None => {
                    self.finish(de)?;
                    return Ok(values);
                },
                Some(key) => {
                    let value = de.deserialize_any()?;
                    let ghost before = values@;
                    values.push((key, value));
                    assert(value::pairs(values@) =~= value::pairs(before).push((key@, value@)));
                },
            }
        }
    }
}

/// A CID behind its tag: a byte string with a null byte in front of the CID.
pub struct CidDeserializer;

impl CidDeserializer {
    /// Refuses whatever else than bytes is asked for.
    pub fn deserialize_any(&self) -> (result: Result<()>)
        ensures
            result == Err::<(), Error>(Error { code: ErrorCode::OnlyBytesInCid, offset: 0 }),
    {
        Err(Error::message(ErrorCode::OnlyBytesInCid))
    }

    /// Reads the byte string of a newtype struct, which must be the one that marks a CID.
    pub fn deserialize_newtype_struct<'a, 'de, R: Read<'de>>(
        &self,
        name: &str,
        de: &'a mut Deserializer<R>,
    ) -> (result: Result<EitherLifetime<'a, 'de>>)
        ensures
            grammar::is_cid_identifier(name@) ==> {
                &&& final(de).source() == grammar::link(old(de).source()).left
                &&& grammar::agrees(result, grammar::link(old(de).source()).result)
                &&& result matches Ok(bytes) ==> bytes is Long == old(de).source().lends_input
            },
            !grammar::is_cid_identifier(name@) ==> {
                &&& final(de).source() == old(de).source()
                &&& result == Err::<EitherLifetime<'a, 'de>, Error>(
                    Error { code: ErrorCode::NotCidNewtype, offset: 0 },
                )
            },
            final(de).settings() == old(de).settings(),
    {
        if text::same_text(name, outside::cid_identifier()) {
            self.deserialize_bytes(de)
        } else {
            Err(Error::message(ErrorCode::NotCidNewtype))
        }
    }

    /// Reads the byte string, and strips off the null byte.
    pub fn deserialize_bytes<'a, 'de, R: Read<'de>>(&self, de: &'a mut Deserializer<R>) -> (result:
        Result<EitherLifetime<'a, 'de>>)
        ensures
            final(de).source() == grammar::link(old(de).source()).left,
            grammar::agrees(result, grammar::link(old(de).source()).result),
            result matches Ok(bytes) ==> bytes is Long == old(de).source().lends_input,
            final(de).settings() == old(de).settings(),
    {
        // Match on the major type, it must be a byte string (major type 2)
        let byte = de.parse_u8()?;
        let len = match byte {
            0x40..=0x5b => de.parse_length(byte - 0x40)?,
            _ => return Err(de.error(ErrorCode::UnexpectedCode)),
        };
        // CIDs always have a `0x00` prefix, hence they cannot be zero sized.
        if len == 0 {
            return Err(de.error(ErrorCode::LengthOutOfRange));
        }
        match de.parse_bytes(len)? {
            EitherLifetime::Long(buf) => Ok(EitherLifetime::Long(strip_prefix(buf))),
            EitherLifetime::Short(buf) => Ok(EitherLifetime::Short(strip_prefix(buf))),
        }
    }
}

/// What asking for an element gives, where `code` is the error of there being none.
pub open spec fn required(more: Result<bool>, s: Source, code: ErrorCode) -> Result<()> {
    match more {
        Ok(true) => Ok(()),
        Ok(false) => Err(s.error(code)),
        Err(e) => Err(e),
    }
}

/// Turns to the next element, which must be there.
fn require<'de, T: Elements, R: Read<'de>>(
    seq: &mut T,
    de: &mut Deserializer<R>,
    code: ErrorCode,
) -> (result: Result<()>)
    ensures
        result == required(old(seq).more(old(de).source()), old(de).source(), code),
        *final(seq) == old(seq).turned(),
        final(de).source() == old(de).source(),
        final(de).settings() == old(de).settings(),
{
    match seq.next_element(de) {
        Ok(true) => Ok(()),
        Ok(false) => Err(de.error(code)),
        Err(e) => Err(e),
    }
}

/// An enum that is written as an array: the variant, and the content of the variant.
///
/// The content of a tuple variant is the elements that are left.
pub struct VariantAccess<T> {
    pub seq: T,
}

impl<T: Elements> Access for VariantAccess<T> {
    open spec fn end(&self, s: Source) -> Step<()> {
        self.seq.end(s)
    }

    fn finish<'de, R: Read<'de>>(&self, de: &mut Deserializer<R>) -> (result: Result<()>) {
        self.seq.finish(de)
    }
}

impl<T: Elements> VariantAccess<T> {
    /// Turns to the variant, and looks at it as at a key.
    pub fn variant_seed<'de, R: Read<'de>>(&mut self, de: &mut Deserializer<R>) -> (result:
        Result<()>)
        ensures
            result == match required(
                old(self).seq.more(old(de).source()),
                old(de).source(),
                ErrorCode::ArrayTooShort,
            ) {
                Ok(_) => grammar::key(old(de).source(), old(de).settings().keys),
                Err(e) => Err(e),
            },
            final(self).seq == old(self).seq.turned(),
            final(de).source() == old(de).source(),
            final(de).settings() == old(de).settings(),
    {
        require(&mut self.seq, de, ErrorCode::ArrayTooShort)?;
        look_at_key(de.accept_named(), de.accept_packed(), de)
    }

    /// Turns to the content of a unit variant.
    pub fn unit_variant<'de, R: Read<'de>>(&mut self, de: &mut Deserializer<R>) -> (result:
        Result<()>)
        ensures
            result == required(
                old(self).seq.more(old(de).source()),
                old(de).source(),
                ErrorCode::ArrayTooLong,
            ),
            final(self).seq == old(self).seq.turned(),
            final(de).source() == old(de).source(),
            final(de).settings() == old(de).settings(),
    {
        require(&mut self.seq, de, ErrorCode::ArrayTooLong)
    }

    /// Turns to the content of a newtype variant.
    pub fn newtype_variant_seed<'de, R: Read<'de>>(&mut self, de: &mut Deserializer<R>) -> (result:
        Result<()>)
        ensures
            result == required(
                old(self).seq.more(old(de).source()),
                old(de).source(),
                ErrorCode::ArrayTooShort,
            ),
            final(self).seq == old(self).seq.turned(),
            final(de).source() == old(de).source(),
            final(de).settings() == old(de).settings(),
    {
        require(&mut self.seq, de, ErrorCode::ArrayTooShort)
    }

    /// Turns to the content of a struct variant.
    pub fn struct_variant<'de, R: Read<'de>>(&mut self, de: &mut Deserializer<R>) -> (result:
        Result<()>)
        ensures
            result == required(
                old(self).seq.more(old(de).source()),
                old(de).source(),
                ErrorCode::ArrayTooShort,
            ),
            final(self).seq == old(self).seq.turned(),
            final(de).source() == old(de).source(),
            final(de).settings() == old(de).settings(),
    {
        require(&mut self.seq, de, ErrorCode::ArrayTooShort)
    }
}

/// An enum that is written as a map: the variant is the key, and the content the value.
pub struct VariantAccessMap {
    pub map: MapAccess,
}

impl Access for VariantAccessMap {
    open spec fn end(&self, s: Source) -> Step<()> {
        self.map.end(s)
    }

    fn finish<'de, R: Read<'de>>(&self, de: &mut Deserializer<R>) -> (result: Result<()>) {
        self.map.finish(de)
    }
}

impl VariantAccessMap {
    /// The map of one entry that an enum is, with the keys that `de` accepts.
    pub fn new<'de, R: Read<'de>>(de: &Deserializer<R>) -> (access: VariantAccessMap)
        ensures
            access.map.left() == 1,
            access.map.keys() == de.settings().keys,
    {
        VariantAccessMap { map: MapAccess::new(1, de) }
    }

    /// Turns to the variant. The content follows it.
    pub fn variant_seed<'de, R: Read<'de>>(&mut self, de: &mut Deserializer<R>) -> (result: Result<
        (),
    >)
        ensures
            ({
                let s = old(de).source();
                if old(self).map.left() == 0 {
                    &&& result == Err::<(), Error>(s.error(ErrorCode::ArrayTooShort))
                    &&& final(self).map.left() == 0
                } else {
                    &&& result == grammar::key(s, old(self).map.keys())
                    &&& final(self).map.left() == old(self).map.left() - 1
                }
            }),
            final(self).map.keys() == old(self).map.keys(),
            final(de).source() == old(de).source(),
            final(de).settings() == old(de).settings(),
    {
        match self.map.next_key(de) {
            Ok(true) => Ok(()),
            Ok(false) => Err(de.error(ErrorCode::ArrayTooShort)),
            Err(e) => Err(e),
        }
    }
}

/// An enum that is written as the variant on its own.
pub struct UnitVariantAccess;

impl UnitVariantAccess {
    /// A unit variant has no content.
    pub fn unit_variant() -> (result: Result<()>)
        ensures
            result == Ok::<(), Error>(()),
    {
        Ok(())
    }

    /// There is no content for a newtype variant.
    pub fn newtype_variant_seed() -> (result: Result<()>)
        ensures
            result == Err::<(), Error>(
                Error { code: ErrorCode::UnitVariant(VariantKind::Newtype), offset: 0 },
            ),
    {
        Err(Error::message(ErrorCode::UnitVariant(VariantKind::Newtype)))
    }

    /// There is no content for a tuple variant.
    pub fn tuple_variant() -> (result: Result<()>)
        ensures
            result == Err::<(), Error>(
                Error { code: ErrorCode::UnitVariant(VariantKind::Tuple), offset: 0 },
            ),
    {
        Err(Error::message(ErrorCode::UnitVariant(VariantKind::Tuple)))
    }

    /// There is no content for a struct variant.
    pub fn struct_variant() -> (result: Result<()>)
        ensures
            result == Err::<(), Error>(
                Error { code: ErrorCode::UnitVariant(VariantKind::Struct), offset: 0 },
            ),
    {
        Err(Error::message(ErrorCode::UnitVariant(VariantKind::Struct)))
    }
}

/// The bytes behind the first.
fn strip_prefix(buf: &[u8]) -> (result: &[u8])
    requires
        buf@.len() > 0,
    ensures
        result@ == buf@.skip(1),
{
    let result = vstd::slice::slice_subrange(buf, 1, buf.len());
    assert(result@ =~= buf@.skip(1));
    result
}

} // verus!
