//! What comes of input that ends too early.

use vstd::prelude::*;
use crate::error::{Error, ErrorCode};
use crate::grammar;
use crate::grammar::{Head, Item, Step};
use crate::laws::items;
use crate::laws::limits::Run;
use crate::laws::numbers;
use crate::laws::progress;
use crate::laws::reading;
use crate::laws::writing;
use crate::laws::writing::{Piece, Writing};
use crate::read::Source;

verus! {

/// Whether a source ends inside `whole`.
pub open spec fn is_cut(s: Source, whole: Seq<u8>) -> bool {
    &&& s.rest.len() < whole.len()
    &&& s.rest == whole.take(s.rest.len() as int)
    &&& s.offset + whole.len() <= u64::MAX
}

/// Whether an error says that the source ended, at its end, or that it failed.
pub open spec fn says_ended(s: Source, e: Error) -> bool {
    if s.broken {
        e == (Error { code: ErrorCode::Io, offset: 0 })
    } else {
        &&& e.offset == s.offset + s.rest.len()
        &&& e.code == ErrorCode::EofWhileParsingValue || e.code == ErrorCode::EofWhileParsingArray
            || e.code == ErrorCode::EofWhileParsingMap
    }
}

/// Whether an error says that the source ended inside a value, at its end, or that it failed.
pub open spec fn says_ended_in_value(s: Source, e: Error) -> bool {
    &&& says_ended(s, e)
    &&& !s.broken ==> e.code == ErrorCode::EofWhileParsingValue
}

/// A source that ends inside the second of two parts ends there behind the first.
proof fn cut_behind(s: Source, first: Seq<u8>, second: Seq<u8>)
    requires
        is_cut(s, first + second),
        first.len() <= s.rest.len(),
    ensures
        s.rest == first + s.rest.skip(first.len() as int),
        is_cut(s.advance(first.len() as int), second),
{
    let t = s.advance(first.len() as int);
    assert(s.rest =~= first + s.rest.skip(first.len() as int));
    assert(t.rest =~= second.take(t.rest.len() as int));
}

/// A source that ends inside the first of two parts ends inside the first.
proof fn cut_before(s: Source, first: Seq<u8>, second: Seq<u8>)
    requires
        is_cut(s, first + second),
        s.rest.len() < first.len(),
    ensures
        is_cut(s, first),
{
    assert(s.rest =~= first.take(s.rest.len() as int));
}

proof fn numbered_is_cut(s: Source, kind: int, n: nat, width: nat)
    requires
        0 <= kind <= 7,
        writing::fits(n, width),
        is_cut(s, writing::numbered(kind, n, width)),
        s.rest.len() > 0,
    ensures
        grammar::major(s.rest[0]) == kind,
        24 <= grammar::info(s.rest[0]) <= 27,
        grammar::width(grammar::info(s.rest[0])) > s.rest.len() - 1,
        grammar::argument(s.advance(1), grammar::info(s.rest[0])) == (Step::<nat> {
            result: Err(s.shortage()),
            left: s.advance(1),
        }),
{
    let whole = writing::numbered(kind, n, width);
    let full = Source { rest: whole, ..s };
    assert(full.rest =~= whole + Seq::<u8>::empty());
    reading::numbered_is_read(full, kind, n, width, Seq::empty());
    assert(s.rest[0] == whole[0]);
}

proof fn piece_is_cut(s: Source, kind: int, piece: Piece)
    requires
        2 <= kind <= 3,
        writing::measured(seq![piece]),
        is_cut(s, writing::piece_bytes(kind, piece)),
        s.rest.len() > 0,
    ensures
        ({
            let len = grammar::length(s.advance(1), grammar::info(s.rest[0]));
            &&& grammar::major(s.rest[0]) == kind
            &&& grammar::info(s.rest[0]) <= 27
            &&& match len.result {
                Err(e) => e == s.shortage(),
                Ok(n) => {
                    &&& n > len.left.rest.len()
                    &&& len.left.shortage() == s.shortage()
                    &&& len.left.offset + n <= u64::MAX
                },
            }
        }),
{
    assert(seq![piece][0] == piece);
    let n = piece.content.len();
    let front = writing::numbered(kind, n, piece.width);
    let whole = front + piece.content;
    let full = Source { rest: whole, ..s };
    reading::numbered_is_read(full, kind, n, piece.width, piece.content);
    if s.rest.len() < front.len() {
        cut_before(s, front, piece.content);
        numbered_is_cut(s, kind, n, piece.width);
    } else {
        cut_behind(s, front, piece.content);
        reading::numbered_is_read(
            s,
            kind,
            n,
            piece.width,
            s.rest.skip(front.len() as int),
        );
    }
}

proof fn pieces_are_cut(s: Source, kind: int, held: Seq<u8>, pieces: Seq<Piece>)
    requires
        2 <= kind <= 3,
        writing::measured(pieces),
        writing::has_room(s.capacity, held.len() + writing::joined(pieces).len()),
        is_cut(s, writing::pieces_bytes(kind, pieces) + seq![0xffu8]),
    ensures
        grammar::pieces(s, kind, held).result == Err::<Seq<u8>, Error>(s.shortage()),
    decreases pieces.len(),
{
    if s.rest.len() > 0 {
        if pieces.len() == 0 {
            assert(writing::pieces_bytes(kind, pieces) + seq![0xffu8] =~= seq![0xffu8]);
        } else {
            let piece = pieces[0];
            assert(writing::measured(seq![piece]));
            let more = pieces.drop_first();
            let first = writing::piece_bytes(kind, piece);
            let tail = writing::pieces_bytes(kind, more) + seq![0xffu8];
            assert(writing::pieces_bytes(kind, pieces) + seq![0xffu8] =~= first + tail);
            if s.rest.len() < first.len() {
                cut_before(s, first, tail);
                piece_is_cut(s, kind, piece);
            } else {
                cut_behind(s, first, tail);
                reading::piece_is_read(s, kind, piece, s.rest.skip(first.len() as int));
                let after = s.advance(first.len() as int);
                pieces_are_cut(after, kind, held + piece.content, more);
            }
        }
    }
}

proof fn string_head_is_cut(s: Source, w: Writing)
    requires
        w is Bytes || w is OpenBytes || w is Str || w is OpenStr,
        w.sound(s.capacity),
        is_cut(s, w.bytes()),
        s.rest.len() > 0,
    ensures
        grammar::head(s).result == Err::<Head, Error>(s.shortage()),
{
    let s1 = s.advance(1);
    match w {
        Writing::Bytes(piece) => piece_is_cut(s, 2, piece),
        Writing::Str(piece) => piece_is_cut(s, 3, piece),
        Writing::OpenBytes(pieces) => {
            cut_behind(s, seq![0x5fu8], writing::pieces_bytes(2, pieces) + seq![0xffu8]);
            assert(s.rest[0] == 0x5f);
            pieces_are_cut(s1, 2, Seq::empty(), pieces);
        },
        Writing::OpenStr(pieces) => {
            cut_behind(s, seq![0x7fu8], writing::pieces_bytes(3, pieces) + seq![0xffu8]);
            assert(s.rest[0] == 0x7f);
            pieces_are_cut(s1, 3, Seq::empty(), pieces);
        },
        _ => {},
    }
}

proof fn float_head_is_cut(s: Source, w: Writing)
    requires
        w is F16 || w is F32 || w is F64,
        is_cut(s, w.bytes()),
        s.rest.len() > 0,
    ensures
        grammar::head(s).result == Err::<Head, Error>(s.shortage()),
{
    let (bits, width) = match w {
        Writing::F16(bits) => (bits as nat, 2nat),
        Writing::F32(bits) => (bits as nat, 4nat),
        Writing::F64(bits) => (bits as nat, 8nat),
        _ => (0nat, 0nat),
    };
    reading::powers();
    numbers::numbers_come_back(bits, width);
    assert(s.rest[0] == w.bytes()[0]);
}

proof fn other_head_is_cut(s: Source, w: Writing)
    requires
        w is Unsigned || w is Negative || w is List || w is Mapping || w is Link,
        w.sound(s.capacity),
        is_cut(s, w.head_bytes()),
        s.rest.len() > 0,
    ensures
        grammar::head(s).result == Err::<Head, Error>(s.shortage()),
{
    match w {
        Writing::Unsigned { n, width } => numbered_is_cut(s, 0, n, width),
        Writing::Negative { n, width } => numbered_is_cut(s, 1, n, width),
        Writing::List { elements, width } => numbered_is_cut(s, 4, elements.len(), width),
        Writing::Mapping { entries, width } => numbered_is_cut(s, 5, entries.len(), width),
        _ => {
            assert(s.rest[0] == 0xd8);
        },
    }
}

/// Input that ends inside the head of an item is refused at its end.
pub proof fn head_is_cut(s: Source, w: Writing)
    requires
        w.sound(s.capacity),
        is_cut(s, w.head_bytes()),
    ensures
        grammar::head(s).result matches Err(e) && says_ended_in_value(s, e),
{
    if s.rest.len() > 0 {
        match w {
            Writing::Bytes(_) => string_head_is_cut(s, w),
            Writing::OpenBytes(_) => string_head_is_cut(s, w),
            Writing::Str(_) => string_head_is_cut(s, w),
            Writing::OpenStr(_) => string_head_is_cut(s, w),
            Writing::F16(_) => float_head_is_cut(s, w),
            Writing::F32(_) => float_head_is_cut(s, w),
            Writing::F64(_) => float_head_is_cut(s, w),
            Writing::Unsigned { .. } => other_head_is_cut(s, w),
            Writing::Negative { .. } => other_head_is_cut(s, w),
            Writing::List { .. } => other_head_is_cut(s, w),
            Writing::Mapping { .. } => other_head_is_cut(s, w),
            Writing::Link { .. } => other_head_is_cut(s, w),
            _ => {},
        }
    }
}

/// Input that ends inside a CID is refused at its end.
pub proof fn link_is_cut(s: Source, prefix: u8, content: Seq<u8>, width: nat)
    requires
        writing::fits(content.len() + 1, width),
        content.len() + 1 <= usize::MAX,
        is_cut(s, writing::piece_bytes(2, Piece { content: seq![prefix] + content, width })),
    ensures
        grammar::link(s).result matches Err(e) && says_ended_in_value(s, e),
{
    if s.rest.len() > 0 {
        let piece = Piece { content: seq![prefix] + content, width };
        piece_is_cut(s, 2, piece);
        let len = grammar::length(s.advance(1), grammar::info(s.rest[0]));
    }
}

/// Input that ends inside a list is refused at its end.
proof fn elements_are_cut(a: Run, elements: Seq<Writing>, done: Seq<Item>)
    requires
        forall|i: int|
            0 <= i < elements.len() ==> (#[trigger] elements[i]).sound(a.source.capacity)
                && items::accepted(elements[i].item(), a.depth, a.keys),
    ensures
        is_cut(a.source, writing::bytes_of(elements)) ==> (a.elements(
            elements.len(),
            done,
        ).result matches Err(e) && says_ended(a.source, e)),
        is_cut(a.source, writing::bytes_of(elements) + seq![0xffu8]) ==> (a.open_elements(
            done,
        ).result matches Err(e) && says_ended(a.source, e)),
    decreases a.depth, elements.len(), 2int,
{
    let s = a.source;
    let whole = writing::bytes_of(elements);
    if elements.len() == 0 {
        assert(whole + seq![0xffu8] =~= seq![0xffu8]);
    } else if is_cut(s, whole) || is_cut(s, whole + seq![0xffu8]) {
        let first = elements[0];
        let more = elements.subrange(1, elements.len() as int);
        assert forall|i: int| 0 <= i < more.len() implies (#[trigger] more[i]).sound(s.capacity)
            && items::accepted(more[i].item(), a.depth, a.keys) by {
            assert(more[i] == elements[i + 1]);
        }
        let rest = writing::bytes_of(more);
        let front = first.bytes();
        reading::bytes_begin(first, s.capacity);
        assert(whole + seq![0xffu8] =~= front + (rest + seq![0xffu8]));
        if s.rest.len() < front.len() {
            if is_cut(s, whole) {
                cut_before(s, front, rest);
            } else {
                cut_before(s, front, rest + seq![0xffu8]);
            }
            item_is_cut(a, first);
            if s.rest.len() > 0 {
                assert(s.rest[0] == front[0]);
            }
        } else {
            let t = s.advance(front.len() as int);
            if is_cut(s, whole) {
                cut_behind(s, front, rest);
            }
            if is_cut(s, whole + seq![0xffu8]) {
                cut_behind(s, front, rest + seq![0xffu8]);
            }
            assert(s.rest[0] == front[0]);
            reading::item_is_read(a, first, t.rest);
            progress::item_progress(s, a.depth, a.keys);
            elements_are_cut(a.at(t), more, done.push(first.item()));
        }
    }
}

/// Input that ends inside a key or its value is refused at its end.
#[verifier::rlimit(50)]
proof fn entry_is_cut(a: Run, pair: (Writing, Writing))
    requires
        reading::pair_accepted(a, pair),
        is_cut(a.source, pair.0.bytes() + pair.1.bytes()),
    ensures
        a.entry().result matches Err(e) && says_ended(a.source, e),
        a.source.rest.len() > 0 ==> a.source.rest[0] == pair.0.bytes()[0],
    decreases a.depth, 0int, 2int,
{
    let s = a.source;
    let (key, value) = pair;
    reading::bytes_begin(key, s.capacity);
    if s.rest.len() < key.bytes().len() {
        cut_before(s, key.bytes(), value.bytes());
        item_is_cut(a, key);
    } else {
        cut_behind(s, key.bytes(), value.bytes());
        let t = s.advance(key.bytes().len() as int);
        reading::item_is_read(a, key, t.rest);
        item_is_cut(a.at(t), value);
    }
}

/// Input that ends inside a map is refused at its end.
#[verifier::rlimit(50)]
proof fn entries_are_cut(a: Run, entries: Seq<(Writing, Writing)>, done: Seq<(Item, Item)>)
    requires
        forall|i: int| 0 <= i < entries.len() ==> reading::pair_accepted(a, #[trigger] entries[i]),
    ensures
        is_cut(a.source, writing::bytes_of_pairs(entries)) ==> (a.entries(
            entries.len(),
            done,
        ).result matches Err(e) && says_ended(a.source, e)),
        is_cut(a.source, writing::bytes_of_pairs(entries) + seq![0xffu8]) ==> (a.open_entries(
            done,
        ).result matches Err(e) && says_ended(a.source, e)),
    decreases a.depth, entries.len(), 3int,
{
    let s = a.source;
    let whole = writing::bytes_of_pairs(entries);
    if entries.len() == 0 {
        assert(whole + seq![0xffu8] =~= seq![0xffu8]);
    } else if is_cut(s, whole) || is_cut(s, whole + seq![0xffu8]) {
        let first = entries[0];
        let more = entries.subrange(1, entries.len() as int);
        let rest = writing::bytes_of_pairs(more);
        let front = first.0.bytes() + first.1.bytes();
        assert(whole =~= front + rest);
        assert(whole + seq![0xffu8] =~= front + (rest + seq![0xffu8]));
        reading::bytes_begin(first.0, s.capacity);
        if s.rest.len() < front.len() {
            if is_cut(s, whole) {
                cut_before(s, front, rest);
            } else {
                cut_before(s, front, rest + seq![0xffu8]);
            }
            entry_is_cut(a, first);
        } else {
            let t = s.advance(front.len() as int);
            if is_cut(s, whole) {
                cut_behind(s, front, rest);
            }
            if is_cut(s, whole + seq![0xffu8]) {
                cut_behind(s, front, rest + seq![0xffu8]);
            }
            let b = a.at(t);
            assert forall|i: int| 0 <= i < more.len() implies reading::pair_accepted(
                b,
                #[trigger] more[i],
            ) by {
                assert(more[i] == entries[i + 1]);
                assert(reading::pair_accepted(a, entries[i + 1]));
            }
            assert(s.rest =~= first.0.bytes() + (first.1.bytes() + t.rest));
            reading::entry_is_read(a, first, t.rest);
            progress::entry_progress(s, a.depth, a.keys);
            assert(s.rest[0] == first.0.bytes()[0]);
            entries_are_cut(b, more, done.push((first.0.item(), first.1.item())));
        }
    }
}

/// Input that ends inside an item is refused at its end.
pub proof fn item_is_cut(a: Run, w: Writing)
    requires
        w.sound(a.source.capacity),
        items::accepted(w.item(), a.depth, a.keys),
        is_cut(a.source, w.bytes()),
    ensures
        a.item().result matches Err(e) && says_ended(a.source, e),
    decreases a.depth, 0int, 1int,
{
    let s = a.source;
    let head = w.head_bytes();
    let body = w.body_bytes();
    reading::bytes_begin(w, s.capacity);
    if s.rest.len() < head.len() {
        cut_before(s, head, body);
        head_is_cut(s, w);
    } else {
        cut_behind(s, head, body);
        let t = s.advance(head.len() as int);
        reading::head_is_read(s, w, t.rest);
        let b = a.down(t);
        match w {
            Writing::List { elements, .. } => {
                reading::contained_are_accepted(elements, a);
                elements_are_cut(b, elements, Seq::empty());
            },
            Writing::OpenList { elements } => {
                reading::contained_are_accepted(elements, a);
                elements_are_cut(b, elements, Seq::empty());
            },
            Writing::Mapping { entries, .. } => {
                reading::contained_pairs_are_accepted(entries, a);
                entries_are_cut(b, entries, Seq::empty());
            },
            Writing::OpenMapping { entries } => {
                reading::contained_pairs_are_accepted(entries, a);
                entries_are_cut(b, entries, Seq::empty());
            },
            Writing::Link { prefix, content, width } => link_is_cut(t, prefix, content, width),
            _ => {},
        }
    }
}

} // verus!
