//! The sources that input is read from.

use vstd::prelude::*;
use crate::error::{Error, ErrorCode, Result};

verus! {

/// Bytes that live either as long as a borrow of the reader, or as long as the input.
#[derive(Clone, Copy, Debug)]
pub enum EitherLifetime<'short, 'long> {
    Short(&'short [u8]),
    Long(&'long [u8]),
}

impl<'short, 'long> View for EitherLifetime<'short, 'long> {
    type V = Seq<u8>;

    open spec fn view(&self) -> Seq<u8> {
        match self {
            EitherLifetime::Short(bytes) => bytes@,
            EitherLifetime::Long(bytes) => bytes@,
        }
    }
}

/// Bytes as contracts speak of them.
pub type Bytes = Seq<u8>;

/// What a reader has still to deliver, and how.
#[verifier::ext_equal]
pub struct Source {
    /// The bytes that were not consumed yet.
    pub rest: Seq<u8>,
    /// How many bytes were consumed.
    pub offset: nat,
    /// Whether the reader fails, rather than ends, after `rest`.
    pub broken: bool,
    /// How many bytes the scratch buffer can hold, where that is limited.
    pub capacity: Option<nat>,
    /// Whether the bytes of a read live as long as the input.
    pub lends_input: bool,
    /// Whether the bytes of the scratch buffer live as long as the input.
    pub lends_buffer: bool,
}

impl Source {
    /// The source once `n` more bytes are consumed.
    pub open spec fn advance(self, n: int) -> Source {
        Source { rest: self.rest.skip(n), offset: (self.offset + n) as nat, ..self }
    }

    /// Whether `after` is this source once some of its bytes are consumed.
    pub open spec fn reaches(self, after: Source) -> bool {
        &&& after.rest.len() <= self.rest.len()
        &&& after == self.advance(self.rest.len() - after.rest.len())
    }

    /// An error at the place that is reached.
    pub open spec fn error(self, code: ErrorCode) -> Error {
        Error { code, offset: self.offset as u64 }
    }

    /// The error of a read that asks for more bytes than there are.
    pub open spec fn shortage(self) -> Error {
        if self.broken {
            Error { code: ErrorCode::Io, offset: 0 }
        } else {
            Error {
                code: ErrorCode::EofWhileParsingValue,
                offset: (self.offset + self.rest.len()) as u64,
            }
        }
    }

    /// What a look at the next byte gives.
    pub open spec fn first(self) -> Result<Option<u8>> {
        if self.rest.len() > 0 {
            Ok(Some(self.rest[0]))
        } else if self.broken {
            Err(self.shortage())
        } else {
            Ok(None)
        }
    }

    /// Whether a scratch buffer that holds `held` bytes has room for `n` more.
    pub open spec fn has_room(self, held: nat, n: nat) -> bool {
        self.capacity matches Some(capacity) ==> held + n <= capacity
    }
}

/// A source of bytes with a scratch buffer.
///
/// A reader that cannot deliver a byte because its input failed reports the error code `Io`, and
/// goes on reporting it.
pub trait Read<'de>: Sized {
    /// The bytes to come, and where the reader stands.
    spec fn source(&self) -> Source;

    /// The contents of the scratch buffer.
    spec fn buffer(&self) -> Bytes;

    /// Consumes the next byte, if there is one.
    fn next(&mut self) -> (result: Result<Option<u8>>)
        ensures
            result == old(self).source().first(),
            final(self).source() == (if old(self).source().rest.len() > 0 {
                old(self).source().advance(1)
            } else {
                old(self).source()
            }),
            final(self).buffer() == old(self).buffer(),
    ;

    /// Looks at the next byte, if there is one.
    fn peek(&mut self) -> (result: Result<Option<u8>>)
        ensures
            result == old(self).source().first(),
            final(self).source() == old(self).source(),
            final(self).buffer() == old(self).buffer(),
    ;

    /// Empties the scratch buffer.
    fn clear_buffer(&mut self)
        ensures
            final(self).source() == old(self).source(),
            final(self).buffer() == Seq::<u8>::empty(),
    ;

    /// Moves the next `n` bytes to the end of the scratch buffer.
    fn read_to_buffer(&mut self, n: usize) -> (result: Result<()>)
        ensures
            ({
                let source = old(self).source();
                let held = old(self).buffer();
                if n > source.rest.len() {
                    &&& result == Err::<(), Error>(source.shortage())
                    &&& final(self).source() == source
                } else if !source.has_room(held.len(), n as nat) {
                    &&& result == Err::<(), Error>(source.error(ErrorCode::ScratchTooSmall))
                    &&& final(self).source() == source
                } else {
                    &&& result == Ok::<(), Error>(())
                    &&& final(self).source() == source.advance(n as int)
                    &&& final(self).buffer() == held + source.rest.take(n as int)
                }
            }),
    ;

    /// Hands out the contents of the scratch buffer.
    fn take_buffer<'a>(&'a mut self) -> (result: EitherLifetime<'a, 'de>)
        ensures
            result@ == old(self).buffer(),
            result is Long == old(self).source().lends_buffer,
            final(self).source() == old(self).source(),
    ;

    /// Consumes the next `n` bytes. The contents of the scratch buffer may be lost on the way.
    fn read<'a>(&'a mut self, n: usize) -> (result: Result<EitherLifetime<'a, 'de>>)
        ensures
            ({
                let source = old(self).source();
                if n > source.rest.len() {
                    &&& result == Err::<EitherLifetime<'a, 'de>, Error>(source.shortage())
                    &&& final(self).source() == source
                } else {
                    &&& result matches Ok(bytes)
                    &&& bytes@ == source.rest.take(n as int)
                    &&& bytes is Long == source.lends_input
                    &&& final(self).source() == source.advance(n as int)
                }
            }),
    ;

    /// Fills `buf` with the next bytes.
    fn read_into(&mut self, buf: &mut [u8]) -> (result: Result<()>)
        ensures
            final(buf)@.len() == old(buf)@.len(),
            ({
                let source = old(self).source();
                let n = old(buf)@.len();
                if n > source.rest.len() {
                    &&& result == Err::<(), Error>(source.shortage())
                    &&& final(self).source() == source
                } else {
                    &&& result == Ok::<(), Error>(())
                    &&& final(buf)@ == source.rest.take(n as int)
                    &&& final(self).source() == source.advance(n as int)
                }
            }),
            final(self).buffer() == old(self).buffer(),
    ;

    /// Consumes the byte that was looked at.
    fn discard(&mut self)
        requires
            old(self).source().rest.len() > 0,
        ensures
            final(self).source() == old(self).source().advance(1),
            final(self).buffer() == old(self).buffer(),
    ;

    /// How many bytes were consumed.
    fn offset(&self) -> (result: u64)
        ensures
            result == self.source().offset,
    ;
}

/// A reader whose offset always fits the machine.
pub trait Offset<'de>: Read<'de> {
    /// How many bytes were consumed.
    fn byte_offset(&self) -> (result: usize)
        ensures
            result == self.source().offset,
    ;
}

/// Copies `from` to `to`, which is as long.
fn copy_from_slice(to: &mut [u8], from: &[u8])
    requires
        from@.len() == old(to)@.len(),
    ensures
        final(to)@ == from@,
{
    let mut i: usize = 0;
    while i < from.len()
        invariant
            i <= from@.len(),
            to@.len() == from@.len(),
            forall|j: int| 0 <= j < i ==> to@[j] == from@[j],
        decreases from@.len() - i,
    {
        to[i] = from[i];
        i = i + 1;
    }
    assert(to@ =~= from@);
}

/// A slice and a place in it.
#[derive(Debug)]
struct Cursor<'a> {
    slice: &'a [u8],
    index: usize,
}

impl<'a> Cursor<'a> {
    #[verifier::type_invariant]
    spec fn well_formed(self) -> bool {
        self.index <= self.slice.len()
    }

    spec fn rest(self) -> Seq<u8> {
        self.slice@.skip(self.index as int)
    }

    /// The source that the cursor stands for, beside a scratch buffer of the given capacity.
    spec fn source(self, capacity: Option<nat>) -> Source {
        Source {
            rest: self.rest(),
            offset: self.index as nat,
            broken: false,
            capacity,
            lends_input: true,
            lends_buffer: false,
        }
    }

    fn new(slice: &'a [u8]) -> (cursor: Cursor<'a>)
        ensures
            cursor.slice == slice,
            cursor.index == 0,
    {
        Cursor { slice, index: 0 }
    }

    /// Where the next `n` bytes end.
    fn end(&self, n: usize) -> (result: Result<usize>)
        ensures
            if n > self.rest().len() {
                result == Err::<usize, Error>(self.source(None).shortage())
            } else {
                &&& result matches Ok(end)
                &&& end == self.index + n
                &&& end <= self.slice@.len()
            },
    {
        proof {
            use_type_invariant(self);
        }
        match self.index.checked_add(n) {
            Some(end) if end <= self.slice.len() => Ok(end),
            _ => Err(Error::syntax(ErrorCode::EofWhileParsingValue, self.slice.len() as u64)),
        }
    }

    fn peek(&self) -> (result: Option<u8>)
        ensures
            result == (if self.rest().len() > 0 {
                Some(self.rest()[0])
            } else {
                None
            }),
    {
        proof {
            use_type_invariant(self);
        }
        if self.index < self.slice.len() {
            Some(self.slice[self.index])
        } else {
            None
        }
    }

    /// Consumes the next `n` bytes.
    fn take(&mut self, n: usize) -> (result: Result<&'a [u8]>)
        ensures
            final(self).slice == old(self).slice,
            if n > old(self).rest().len() {
                &&& result == Err::<&'a [u8], Error>(old(self).source(None).shortage())
                &&& final(self).index == old(self).index
            } else {
                &&& result matches Ok(bytes)
                &&& bytes@ == old(self).rest().take(n as int)
                &&& final(self).index == old(self).index + n
                &&& final(self).rest() == old(self).rest().skip(n as int)
            },
    {
        proof {
            use_type_invariant(&*self);
        }
        let end = self.end(n)?;
        let bytes = vstd::slice::slice_subrange(self.slice, self.index, end);
        self.index = end;
        assert(bytes@ =~= old(self).rest().take(n as int));
        assert(self.rest() =~= old(self).rest().skip(n as int));
        Ok(bytes)
    }

    /// Consumes one byte.
    fn discard(&mut self)
        requires
            old(self).rest().len() > 0,
        ensures
            final(self).slice == old(self).slice,
            final(self).index == old(self).index + 1,
            final(self).rest() == old(self).rest().skip(1),
    {
        proof {
            use_type_invariant(&*self);
        }
        self.index = self.index + 1;
        assert(self.rest() =~= old(self).rest().skip(1));
    }
}

/// Reads from a slice, with a scratch buffer that grows as needed.
#[derive(Debug)]
pub struct SliceRead<'a> {
    cursor: Cursor<'a>,
    scratch: Vec<u8>,
}

impl<'a> SliceRead<'a> {
    /// A reader at the start of `slice`.
    pub fn new(slice: &'a [u8]) -> (reader: SliceRead<'a>)
        ensures
            reader.source() == (Source {
                rest: slice@,
                offset: 0,
                broken: false,
                capacity: None,
                lends_input: true,
                lends_buffer: false,
            }),
            reader.buffer() == Seq::<u8>::empty(),
    {
        let reader = SliceRead { cursor: Cursor::new(slice), scratch: Vec::new() };
        assert(reader.source().rest =~= slice@);
        reader
    }
}

impl<'a> Read<'a> for SliceRead<'a> {
    closed spec fn source(&self) -> Source {
        self.cursor.source(None)
    }

    closed spec fn buffer(&self) -> Seq<u8> {
        self.scratch@
    }

    fn next(&mut self) -> (result: Result<Option<u8>>) {
        let byte = self.cursor.peek();
        if byte.is_some() {
            self.cursor.discard();
        }
        Ok(byte)
    }

    fn peek(&mut self) -> (result: Result<Option<u8>>) {
        Ok(self.cursor.peek())
    }

    fn clear_buffer(&mut self) {
        self.scratch.clear();
    }

    fn read_to_buffer(&mut self, n: usize) -> (result: Result<()>) {
        let bytes = self.cursor.take(n)?;
        self.scratch.extend_from_slice(bytes);
        assert(self.buffer() =~= old(self).buffer() + bytes@);
        Ok(())
    }

    fn take_buffer<'b>(&'b mut self) -> (result: EitherLifetime<'b, 'a>) {
        EitherLifetime::Short(self.scratch.as_slice())
    }

    fn read<'b>(&'b mut self, n: usize) -> (result: Result<EitherLifetime<'b, 'a>>) {
        let bytes = self.cursor.take(n)?;
        Ok(EitherLifetime::Long(bytes))
    }

    fn read_into(&mut self, buf: &mut [u8]) -> (result: Result<()>) {
        let bytes = self.cursor.take(buf.len())?;
        copy_from_slice(buf, bytes);
        Ok(())
    }

    fn discard(&mut self) {
        self.cursor.discard();
    }

    fn offset(&self) -> (result: u64) {
        self.cursor.index as u64
    }
}

impl<'a> Offset<'a> for SliceRead<'a> {
    fn byte_offset(&self) -> (result: usize) {
        self.cursor.index
    }
}

/// A slice that is filled from its start.
#[derive(Debug)]
struct Scratch<'b> {
    bytes: &'b mut [u8],
    len: usize,
}

impl<'b> Scratch<'b> {
    #[verifier::type_invariant]
    spec fn well_formed(self) -> bool {
        self.len <= self.bytes@.len()
    }

    spec fn held(self) -> Seq<u8> {
        self.bytes@.take(self.len as int)
    }

    spec fn capacity(self) -> nat {
        self.bytes@.len()
    }

    fn new(bytes: &'b mut [u8]) -> (scratch: Scratch<'b>)
        ensures
            scratch.held() == Seq::<u8>::empty(),
            scratch.capacity() == old(bytes)@.len(),
    {
        let scratch = Scratch { bytes, len: 0 };
        assert(scratch.held() =~= Seq::<u8>::empty());
        scratch
    }

    fn has_room(&self, n: usize) -> (result: bool)
        ensures
            result == (self.held().len() + n <= self.capacity()),
    {
        proof {
            use_type_invariant(self);
        }
        n <= self.bytes.len() - self.len
    }

    fn clear(&mut self)
        ensures
            final(self).held() == Seq::<u8>::empty(),
            final(self).capacity() == old(self).capacity(),
    {
        self.len = 0;
        assert(self.held() =~= Seq::<u8>::empty());
    }

    fn extend_from_slice(&mut self, from: &[u8])
        requires
            old(self).held().len() + from@.len() <= old(self).capacity(),
        ensures
            final(self).held() == old(self).held() + from@,
            final(self).capacity() == old(self).capacity(),
    {
        proof {
            use_type_invariant(&*self);
        }
        let mut i: usize = 0;
        while i < from.len()
            invariant
                i <= from@.len(),
                old(self).len <= old(self).bytes@.len(),
                self.len == old(self).len + i,
                self.bytes@.len() == old(self).bytes@.len(),
                old(self).len + from@.len() <= old(self).bytes@.len(),
                forall|j: int| 0 <= j < old(self).len ==> self.bytes@[j] == old(self).bytes@[j],
                forall|j: int|
                    old(self).len <= j < self.len ==> #[trigger] self.bytes@[j] == from@[j
                        - old(self).len],
            decreases from@.len() - i,
        {
            self.bytes[self.len] = from[i];
            self.len = self.len + 1;
            i = i + 1;
        }
        assert(self.held() =~= old(self).held() + from@);
    }

    fn as_slice<'a>(&'a self) -> (result: &'a [u8])
        ensures
            result@ == self.held(),
    {
        proof {
            use_type_invariant(self);
        }
        vstd::slice::slice_subrange(self.bytes, 0, self.len)
    }
}

/// Reads from a slice, with a scratch buffer of a fixed size.
#[derive(Debug)]
pub struct SliceReadFixed<'a, 'b> {
    cursor: Cursor<'a>,
    scratch: Scratch<'b>,
}

impl<'a, 'b> SliceReadFixed<'a, 'b> {
    /// A reader at the start of `slice` that uses `scratch` as its scratch buffer.
    pub fn new(slice: &'a [u8], scratch: &'b mut [u8]) -> (reader: SliceReadFixed<'a, 'b>)
        ensures
            reader.source() == (Source {
                rest: slice@,
                offset: 0,
                broken: false,
                capacity: Some(old(scratch)@.len()),
                lends_input: true,
                lends_buffer: false,
            }),
            reader.buffer() == Seq::<u8>::empty(),
    {
        let reader = SliceReadFixed { cursor: Cursor::new(slice), scratch: Scratch::new(scratch) };
        assert(reader.source().rest =~= slice@);
        reader
    }
}

impl<'a, 'b> Read<'a> for SliceReadFixed<'a, 'b> {
    closed spec fn source(&self) -> Source {
        self.cursor.source(Some(self.scratch.capacity()))
    }

    closed spec fn buffer(&self) -> Seq<u8> {
        self.scratch.held()
    }

    fn next(&mut self) -> (result: Result<Option<u8>>) {
        let byte = self.cursor.peek();
        if byte.is_some() {
            self.cursor.discard();
        }
        Ok(byte)
    }

    fn peek(&mut self) -> (result: Result<Option<u8>>) {
        Ok(self.cursor.peek())
    }

    fn clear_buffer(&mut self) {
        self.scratch.clear();
    }

    fn read_to_buffer(&mut self, n: usize) -> (result: Result<()>) {
        let _ = self.cursor.end(n)?;
        if !self.scratch.has_room(n) {
            return Err(Error::syntax(ErrorCode::ScratchTooSmall, self.cursor.index as u64));
        }
        let bytes = self.cursor.take(n)?;
        self.scratch.extend_from_slice(bytes);
        Ok(())
    }

    fn take_buffer<'c>(&'c mut self) -> (result: EitherLifetime<'c, 'a>) {
        EitherLifetime::Short(self.scratch.as_slice())
    }

    fn read<'c>(&'c mut self, n: usize) -> (result: Result<EitherLifetime<'c, 'a>>) {
        let bytes = self.cursor.take(n)?;
        Ok(EitherLifetime::Long(bytes))
    }

    fn read_into(&mut self, buf: &mut [u8]) -> (result: Result<()>) {
        let bytes = self.cursor.take(buf.len())?;
        copy_from_slice(buf, bytes);
        Ok(())
    }

    fn discard(&mut self) {
        self.cursor.discard();
    }

    fn offset(&self) -> (result: u64) {
        self.cursor.index as u64
    }
}

impl<'a, 'b> Offset<'a> for SliceReadFixed<'a, 'b> {
    fn byte_offset(&self) -> (result: usize) {
        self.cursor.index
    }
}

/// Reads from a mutable slice that is its own scratch buffer.
#[derive(Debug)]
pub struct MutSliceRead<'a> {
    /// The part of the input that was not given away. The scratch buffer is its start.
    slice: &'a mut [u8],
    /// How many bytes of `slice` were consumed.
    index: usize,
    /// How many bytes were given away before `slice`.
    before: usize,
    /// Where the scratch buffer ends.
    buffer_end: usize,
}

impl<'a> MutSliceRead<'a> {
    #[verifier::type_invariant]
    spec fn well_formed(self) -> bool {
        &&& self.buffer_end <= self.index <= self.slice@.len()
        &&& self.before + self.slice@.len() <= usize::MAX
    }

    spec fn rest(self) -> Seq<u8> {
        self.slice@.skip(self.index as int)
    }

    /// A reader at the start of `slice`.
    pub fn new(slice: &'a mut [u8]) -> (reader: MutSliceRead<'a>)
        ensures
            reader.source() == (Source {
                rest: old(slice)@,
                offset: 0,
                broken: false,
                capacity: None,
                lends_input: true,
                lends_buffer: true,
            }),
            reader.buffer() == Seq::<u8>::empty(),
    {
        assert(slice.len() <= usize::MAX);
        let reader = MutSliceRead { slice, index: 0, before: 0, buffer_end: 0 };
        assert(reader.source().rest =~= old(slice)@);
        assert(reader.buffer() =~= Seq::<u8>::empty());
        reader
    }

    /// Where the next `n` bytes end.
    fn end(&self, n: usize) -> (result: Result<usize>)
        ensures
            if n > self.rest().len() {
                result == Err::<usize, Error>(self.source().shortage())
            } else {
                &&& result matches Ok(end)
                &&& end == self.index + n
            },
    {
        proof {
            use_type_invariant(self);
        }
        match self.index.checked_add(n) {
            Some(end) if end <= self.slice.len() => Ok(end),
            _ => Err(
                Error::syntax(
                    ErrorCode::EofWhileParsingValue,
                    (self.before + self.slice.len()) as u64,
                ),
            ),
        }
    }

    /// Gives away the bytes that were consumed.
    fn release(&mut self) -> (result: &'a mut [u8])
        ensures
            result@ == old(self).slice@.take(old(self).index as int),
            final(self).source() == old(self).source(),
            final(self).buffer() == Seq::<u8>::empty(),
            final(self).index == 0,
    {
        proof {
            use_type_invariant(&*self);
        }
        let index: usize = self.index;
        let before: usize = self.before;
        self.buffer_end = 0;
        self.index = 0;
        self.before = 0;
        let mut slice: &'a mut [u8] = &mut [];
        core::mem::swap(&mut self.slice, &mut slice);
        let (left, right) = slice.split_at_mut(index);
        self.slice = right;
        self.before = before + index;
        assert(self.rest() =~= old(self).rest());
        assert(self.buffer() =~= Seq::<u8>::empty());
        left
    }
}

impl<'a> Read<'a> for MutSliceRead<'a> {
    closed spec fn source(&self) -> Source {
        Source {
            rest: self.rest(),
            offset: (self.before + self.index) as nat,
            broken: false,
            capacity: None,
            lends_input: true,
            lends_buffer: true,
        }
    }

    closed spec fn buffer(&self) -> Seq<u8> {
        self.slice@.take(self.buffer_end as int)
    }

    fn next(&mut self) -> (result: Result<Option<u8>>) {
        let byte = self.peek()?;
        if byte.is_some() {
            self.discard();
        }
        Ok(byte)
    }

    fn peek(&mut self) -> (result: Result<Option<u8>>) {
        proof {
            use_type_invariant(&*self);
        }
        if self.index < self.slice.len() {
            Ok(Some(self.slice[self.index]))
        } else {
            Ok(None)
        }
    }

    fn clear_buffer(&mut self) {
        let _ = self.release();
    }

    fn read_to_buffer(&mut self, n: usize) -> (result: Result<()>) {
        proof {
            use_type_invariant(&*self);
        }
        let end = self.end(n)?;
        let start: usize = self.index;
        let mut i: usize = 0;
        while i < n
            invariant
                i <= n,
                old(self).buffer_end <= start == old(self).index,
                end == start + n,
                end <= old(self).slice@.len(),
                old(self).before + old(self).slice@.len() <= usize::MAX,
                self.slice@.len() == old(self).slice@.len(),
                self.index == start + i,
                self.before == old(self).before,
                self.buffer_end == old(self).buffer_end + i,
                forall|j: int|
                    0 <= j < old(self).buffer_end ==> self.slice@[j] == old(self).slice@[j],
                forall|j: int|
                    old(self).buffer_end <= j < self.buffer_end ==> #[trigger] self.slice@[j]
                        == old(self).slice@[j - old(self).buffer_end + start],
                forall|j: int|
                    start + i <= j < self.slice@.len() ==> self.slice@[j] == old(self).slice@[j],
            decreases n - i,
        {
            let byte: u8 = self.slice[self.index];
            self.slice[self.buffer_end] = byte;
            self.index = self.index + 1;
            self.buffer_end = self.buffer_end + 1;
            i = i + 1;
        }
        assert(self.rest() =~= old(self).rest().skip(n as int));
        assert(self.buffer() =~= old(self).buffer() + old(self).rest().take(n as int));
        Ok(())
    }

    fn take_buffer<'b>(&'b mut self) -> (result: EitherLifetime<'b, 'a>) {
        proof {
            use_type_invariant(&*self);
        }
        let len: usize = self.buffer_end;
        let left = self.release();
        let bytes = vstd::slice::slice_subrange(left, 0, len);
        assert(bytes@ =~= old(self).buffer());
        EitherLifetime::Long(bytes)
    }

    fn read<'b>(&'b mut self, n: usize) -> (result: Result<EitherLifetime<'b, 'a>>) {
        self.clear_buffer();
        self.read_to_buffer(n)?;
        assert(self.buffer() =~= old(self).source().rest.take(n as int));
        Ok(self.take_buffer())
    }

    fn read_into(&mut self, buf: &mut [u8]) -> (result: Result<()>) {
        proof {
            use_type_invariant(&*self);
        }
        let end = self.end(buf.len())?;
        copy_from_slice(buf, vstd::slice::slice_subrange(self.slice, self.index, end));
        assert(buf@ =~= self.rest().take(end - self.index));
        self.index = end;
        assert(self.rest() =~= old(self).rest().skip(end - old(self).index));
        Ok(())
    }

    fn discard(&mut self) {
        proof {
            use_type_invariant(&*self);
        }
        self.index = self.index + 1;
        assert(self.rest() =~= old(self).rest().skip(1));
    }

    fn offset(&self) -> (result: u64) {
        proof {
            use_type_invariant(self);
        }
        (self.before + self.index) as u64
    }
}

impl<'a> Offset<'a> for MutSliceRead<'a> {
    fn byte_offset(&self) -> (result: usize) {
        proof {
            use_type_invariant(self);
        }
        self.before + self.index
    }
}

} // verus!
