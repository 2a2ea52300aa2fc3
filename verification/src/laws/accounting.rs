//! What is read was written: nothing is read that the bytes do not say.

use vstd::prelude::*;
use crate::grammar;
use crate::grammar::{Head, Item, Step};
use crate::laws::items;
use crate::laws::limits::Run;
use crate::laws::numbers::be_bytes;
use crate::laws::progress;
use crate::laws::reading;
use crate::laws::writing;
use crate::laws::writing::{Piece, Writing};
use crate::read::Source;

verus! {

/// Bytes are those in which the number is written for which they stand.
pub proof fn bytes_come_back(bytes: Seq<u8>)
    ensures
        be_bytes(grammar::big_endian(bytes), bytes.len()) == bytes,
    decreases bytes.len(),
{
    if bytes.len() > 0 {
        let high = grammar::big_endian(bytes.drop_last());
        let low = bytes.last() as nat;
        bytes_come_back(bytes.drop_last());
        assert((high * 256 + low) / 256 == high && (high * 256 + low) % 256 == low)
            by (nonlinear_arith)
            requires
                low < 256,
        ;
        assert(be_bytes(grammar::big_endian(bytes), bytes.len()) =~= bytes);
    } else {
        assert(be_bytes(grammar::big_endian(bytes), bytes.len()) =~= bytes);
    }
}

/// Whether some bytes were consumed, and no more.
pub open spec fn consumed(s: Source, left: Source, bytes: Seq<u8>) -> bool {
    &&& s.rest == bytes + left.rest
    &&& left == s.advance(bytes.len() as int)
}

/// What is consumed in two steps.
proof fn consumed_in_two(s: Source, middle: Source, left: Source, x: Seq<u8>, y: Seq<u8>)
    requires
        consumed(s, middle, x),
        consumed(middle, left, y),
    ensures
        consumed(s, left, x + y),
{
    assert(s.rest =~= (x + y) + left.rest);
    reading::advances_add_up(s, x.len() as int, y.len() as int);
}

/// A number that is read was written.
proof fn number_was_written(s: Source, width: int)
    requires
        0 <= width,
    ensures
        grammar::number(s, width).result matches Ok(n) ==> consumed(
            s,
            grammar::number(s, width).left,
            be_bytes(n, width as nat),
        ) && be_bytes(n, width as nat).len() == width,
{
    if width <= s.rest.len() {
        bytes_come_back(s.rest.take(width));
        assert(s.rest =~= s.rest.take(width) + s.rest.skip(width));
    }
}

/// A number that is read behind an initial byte was written.
proof fn numbered_was_written(s: Source)
    requires
        s.rest.len() > 0,
        grammar::info(s.rest[0]) <= 27,
    ensures
        ({
            let kind = grammar::major(s.rest[0]);
            let width = grammar::width(grammar::info(s.rest[0])) as nat;
            let read = grammar::argument(s.advance(1), grammar::info(s.rest[0]));
            read.result matches Ok(n) ==> {
                &&& writing::fits(n, width)
                &&& consumed(s, read.left, writing::numbered(kind, n, width))
            }
        }),
{
    let kind = grammar::major(s.rest[0]);
    let info = grammar::info(s.rest[0]);
    let width = grammar::width(info) as nat;
    let s1 = s.advance(1);
    let first = seq![s.rest[0]];
    assert(s.rest =~= first + s1.rest);
    assert(kind * 32 + info == s.rest[0]);
    items::numbers_are_bounded(s1);
    if width > 0 {
        number_was_written(s1, width as int);
        let read = grammar::number(s1, width as int);
        if let Ok(n) = read.result {
            consumed_in_two(s, s1, read.left, first, be_bytes(n, width));
            assert(writing::numbered(kind, n, width) =~= first + be_bytes(n, width));
        }
    } else {
        assert(writing::numbered(kind, info as nat, width) =~= first);
    }
}

/// A string with its length that is read was written.
proof fn piece_was_written(s: Source) -> (piece: Piece)
    requires
        s.rest.len() > 0,
        grammar::info(s.rest[0]) <= 27,
    ensures
        ({
            let kind = grammar::major(s.rest[0]);
            let len = grammar::length(s.advance(1), grammar::info(s.rest[0]));
            len.result matches Ok(n) ==> n <= len.left.rest.len() ==> {
                &&& piece.content == len.left.rest.take(n as int)
                &&& writing::measured(seq![piece])
                &&& len.left.capacity == s.capacity
                &&& consumed(
                    s,
                    len.left.advance(n as int),
                    writing::piece_bytes(kind, piece),
                )
            }
        }),
{
    let kind = grammar::major(s.rest[0]);
    let info = grammar::info(s.rest[0]);
    let width = grammar::width(info) as nat;
    let len = grammar::length(s.advance(1), info);
    numbered_was_written(s);
    let n = len.result->Ok_0;
    let content = len.left.rest.take(n as int);
    let piece = Piece { content, width };
    if len.result is Ok && n <= len.left.rest.len() {
        let left = len.left.advance(n as int);
        assert(len.left.rest =~= content + left.rest);
        consumed_in_two(s, len.left, left, writing::numbered(kind, n, width), content);
    }
    piece
}

/// Pieces that are read were written.
proof fn pieces_were_written(s: Source, kind: int, held: Seq<u8>) -> (pieces: Seq<Piece>)
    requires
        writing::has_room(s.capacity, held.len()),
    ensures
        grammar::pieces(s, kind, held).result matches Ok(b) ==> {
            &&& b == held + writing::joined(pieces)
            &&& writing::measured(pieces)
            &&& writing::has_room(s.capacity, b.len())
            &&& consumed(
                s,
                grammar::pieces(s, kind, held).left,
                writing::pieces_bytes(kind, pieces) + seq![0xffu8],
            )
        },
    decreases s.rest.len(),
{
    if s.rest.len() == 0 {
        Seq::empty()
    } else {
        let byte = s.rest[0];
        let s1 = s.advance(1);
        if byte == 0xff {
            let none = Seq::<Piece>::empty();
            assert(held + writing::joined(none) =~= held);
            assert(writing::pieces_bytes(kind, none) + seq![0xffu8] =~= seq![0xffu8]);
            assert(s.rest =~= seq![0xffu8] + s1.rest);
            none
        } else if grammar::major(byte) == kind && grammar::info(byte) <= 27 {
            let len = grammar::length(s1, grammar::info(byte));
            let n = len.result->Ok_0;
            let s2 = len.left;
            if len.result is Ok && n <= s2.rest.len() && s2.has_room(held.len(), n) {
                let piece = piece_was_written(s);
                assert(seq![piece][0] == piece);
                let after = s2.advance(n as int);
                let more = pieces_were_written(after, kind, held + piece.content);
                let all = seq![piece] + more;
                if let Ok(b) = grammar::pieces(s, kind, held).result {
                    assert(all.drop_first() =~= more);
                    assert(b =~= held + writing::joined(all));
                    let tail = writing::pieces_bytes(kind, more) + seq![0xffu8];
                    let left = grammar::pieces(s, kind, held).left;
                    consumed_in_two(s, after, left, writing::piece_bytes(kind, piece), tail);
                    assert(writing::piece_bytes(kind, piece) + tail =~= writing::pieces_bytes(
                        kind,
                        all,
                    ) + seq![0xffu8]);
                    assert forall|i: int| 0 <= i < all.len() implies ({
                        let p = #[trigger] all[i];
                        writing::fits(p.content.len(), p.width) && p.content.len() <= usize::MAX
                    }) by {
                        if i > 0 {
                            assert(all[i] == more[i - 1]);
                        }
                    }
                }
                all
            } else {
                Seq::empty()
            }
        } else {
            Seq::empty()
        }
    }
}

/// Whether a writing is one of what a head says.
pub open spec fn accounts_for_head(w: Writing, s: Source, read: Step<Head>) -> bool {
    read.result matches Ok(head) ==> {
        &&& w.head() == head
        &&& match head {
            Head::Array(n) => {
                &&& w matches Writing::List { elements, width }
                &&& elements.len() == n <= usize::MAX
                &&& writing::fits(n, width)
            },
            Head::IndefiniteArray => w is OpenList,
            Head::Mapping(n) => {
                &&& w matches Writing::Mapping { entries, width }
                &&& entries.len() == n <= usize::MAX
                &&& writing::fits(n, width)
            },
            Head::IndefiniteMapping => w is OpenMapping,
            Head::Cid => w is Link,
            _ => w.sound(s.capacity) && w.head_bytes() == w.bytes(),
        }
        &&& consumed(s, read.left, w.head_bytes())
    }
}

proof fn integer_head_was_written(s: Source) -> (w: Writing)
    requires
        s.rest.len() > 0,
        grammar::major(s.rest[0]) <= 1,
    ensures
        accounts_for_head(w, s, grammar::head(s)),
{
    let info = grammar::info(s.rest[0]);
    if info <= 27 {
        numbered_was_written(s);
        let n = grammar::argument(s.advance(1), info).result->Ok_0;
        let width = grammar::width(info) as nat;
        if grammar::major(s.rest[0]) == 0 {
            Writing::Unsigned { n, width }
        } else {
            Writing::Negative { n, width }
        }
    } else {
        Writing::Null
    }
}

proof fn byte_string_head_was_written(s: Source) -> (w: Writing)
    requires
        s.rest.len() > 0,
        grammar::major(s.rest[0]) == 2,
    ensures
        accounts_for_head(w, s, grammar::head(s)),
{
    let info = grammar::info(s.rest[0]);
    let s1 = s.advance(1);
    if info == 31 {
        let pieces = pieces_were_written(s1, 2, Seq::empty());
        let read = grammar::pieces(s1, 2, Seq::empty());
        if let Ok(b) = read.result {
            assert(b =~= writing::joined(pieces));
            assert(s.rest =~= seq![0x5fu8] + s1.rest);
            let tail = writing::pieces_bytes(2, pieces) + seq![0xffu8];
            consumed_in_two(s, s1, read.left, seq![0x5fu8], tail);
        }
        Writing::OpenBytes(pieces)
    } else if info <= 27 {
        Writing::Bytes(piece_was_written(s))
    } else {
        Writing::Null
    }
}

proof fn text_string_head_was_written(s: Source) -> (w: Writing)
    requires
        s.rest.len() > 0,
        grammar::major(s.rest[0]) == 3,
    ensures
        accounts_for_head(w, s, grammar::head(s)),
{
    let info = grammar::info(s.rest[0]);
    let s1 = s.advance(1);
    if info == 31 {
        let pieces = pieces_were_written(s1, 3, Seq::empty());
        let read = grammar::pieces(s1, 3, Seq::empty());
        if let Ok(b) = read.result {
            assert(b =~= writing::joined(pieces));
            assert(s.rest =~= seq![0x7fu8] + s1.rest);
            let tail = writing::pieces_bytes(3, pieces) + seq![0xffu8];
            consumed_in_two(s, s1, read.left, seq![0x7fu8], tail);
        }
        Writing::OpenStr(pieces)
    } else if info <= 27 {
        Writing::Str(piece_was_written(s))
    } else {
        Writing::Null
    }
}

proof fn container_head_was_written(s: Source) -> (w: Writing)
    requires
        s.rest.len() > 0,
        4 <= grammar::major(s.rest[0]) <= 5,
    ensures
        accounts_for_head(w, s, grammar::head(s)),
{
    let info = grammar::info(s.rest[0]);
    let kind = grammar::major(s.rest[0]);
    let s1 = s.advance(1);
    if info == 31 {
        assert(s.rest =~= seq![s.rest[0]] + s1.rest);
        if kind == 4 {
            Writing::OpenList { elements: Seq::empty() }
        } else {
            Writing::OpenMapping { entries: Seq::empty() }
        }
    } else if info <= 27 {
        numbered_was_written(s);
        let n = grammar::length(s1, info).result->Ok_0;
        let width = grammar::width(info) as nat;
        if kind == 4 {
            Writing::List { elements: Seq::new(n, |i: int| Writing::Null), width }
        } else {
            Writing::Mapping {
                entries: Seq::new(n, |i: int| (Writing::Null, Writing::Null)),
                width,
            }
        }
    } else {
        Writing::Null
    }
}

proof fn other_head_was_written(s: Source) -> (w: Writing)
    requires
        s.rest.len() > 0,
        6 <= grammar::major(s.rest[0]),
    ensures
        accounts_for_head(w, s, grammar::head(s)),
{
    let info = grammar::info(s.rest[0]);
    let s1 = s.advance(1);
    let first = seq![s.rest[0]];
    assert(s.rest =~= first + s1.rest);
    if grammar::major(s.rest[0]) == 6 {
        crate::laws::only_cids_are_tagged(s);
        if grammar::head(s).result is Ok {
            assert(s.rest =~= seq![0xd8u8, 0x2au8] + s.advance(2).rest);
        }
        Writing::Link { prefix: 0, content: Seq::empty(), width: 0 }
    } else if 25 <= info <= 27 {
        items::numbers_are_bounded(s1);
        let width = grammar::width(info);
        number_was_written(s1, width);
        let read = grammar::number(s1, width);
        let n = read.result->Ok_0;
        if read.result is Ok {
            consumed_in_two(s, s1, read.left, first, be_bytes(n, width as nat));
        }
        if info == 25 {
            Writing::F16(n as u16)
        } else if info == 26 {
            Writing::F32(n as u32)
        } else {
            Writing::F64(n as u64)
        }
    } else if info == 22 {
        Writing::Null
    } else {
        Writing::Bool(info == 21)
    }
}

/// A head that is read was written.
pub proof fn head_was_written(s: Source) -> (w: Writing)
    ensures
        accounts_for_head(w, s, grammar::head(s)),
{
    if s.rest.len() == 0 {
        Writing::Null
    } else if grammar::major(s.rest[0]) <= 1 {
        integer_head_was_written(s)
    } else if grammar::major(s.rest[0]) == 2 {
        byte_string_head_was_written(s)
    } else if grammar::major(s.rest[0]) == 3 {
        text_string_head_was_written(s)
    } else if grammar::major(s.rest[0]) <= 5 {
        container_head_was_written(s)
    } else {
        other_head_was_written(s)
    }
}

/// Whether a writing is one of what a step gives, and of what it consumes.
pub open spec fn accounts_for(w: Writing, s: Source, read: Step<Item>) -> bool {
    read.result matches Ok(item) ==> {
        &&& w.sound(s.capacity)
        &&& w.item() == item
        &&& consumed(s, read.left, w.bytes())
    }
}

/// Whether all of them are sound.
pub open spec fn all_sound(elements: Seq<Writing>, limit: Option<nat>) -> bool {
    forall|i: int| 0 <= i < elements.len() ==> (#[trigger] elements[i]).sound(limit)
}

/// Whether all keys and values are sound.
pub open spec fn all_pairs_sound(entries: Seq<(Writing, Writing)>, limit: Option<nat>) -> bool {
    forall|i: int|
        0 <= i < entries.len() ==> (#[trigger] entries[i]).0.sound(limit) && entries[i].1.sound(
            limit,
        )
}

/// A writing and those behind it.
proof fn first_and_more(first: Writing, more: Seq<Writing>, limit: Option<nat>)
    ensures
        ({
            let all = seq![first] + more;
            &&& all.len() == more.len() + 1
            &&& writing::bytes_of(all) == first.bytes() + writing::bytes_of(more)
            &&& writing::items_of(all) == seq![first.item()] + writing::items_of(more)
            &&& first.sound(limit) && all_sound(more, limit) ==> all_sound(all, limit)
        }),
{
    let all = seq![first] + more;
    assert(all.subrange(1, all.len() as int) =~= more);
    if first.sound(limit) && all_sound(more, limit) {
        assert forall|i: int| 0 <= i < all.len() implies (#[trigger] all[i]).sound(limit) by {
            if i > 0 {
                assert(all[i] == more[i - 1]);
            }
        }
    }
}

/// A pair of writings and those behind it.
proof fn first_and_more_pairs(
    first: (Writing, Writing),
    more: Seq<(Writing, Writing)>,
    limit: Option<nat>,
)
    ensures
        ({
            let all = seq![first] + more;
            &&& all.len() == more.len() + 1
            &&& writing::bytes_of_pairs(all) == first.0.bytes() + (first.1.bytes()
                + writing::bytes_of_pairs(more))
            &&& writing::items_of_pairs(all) == seq![(first.0.item(), first.1.item())]
                + writing::items_of_pairs(more)
            &&& first.0.sound(limit) && first.1.sound(limit) && all_pairs_sound(more, limit)
                ==> all_pairs_sound(all, limit)
        }),
{
    let all = seq![first] + more;
    assert(all.subrange(1, all.len() as int) =~= more);
    if first.0.sound(limit) && first.1.sound(limit) && all_pairs_sound(more, limit) {
        assert forall|i: int| 0 <= i < all.len() implies (#[trigger] all[i]).0.sound(limit)
            && all[i].1.sound(limit) by {
            if i > 0 {
                assert(all[i] == more[i - 1]);
            }
        }
    }
}

/// Elements that are read were written.
proof fn elements_were_written(a: Run, n: nat, done: Seq<Item>) -> (elements: Seq<Writing>)
    ensures
        a.elements(n, done).result matches Ok(items) ==> {
            &&& elements.len() == n
            &&& all_sound(elements, a.source.capacity)
            &&& items == done + writing::items_of(elements)
            &&& consumed(a.source, a.elements(n, done).left, writing::bytes_of(elements))
        },
    decreases a.depth, n, 2int,
{
    if n == 0 {
        let none = Seq::<Writing>::empty();
        assert(done + writing::items_of(none) =~= done);
        assert(a.source.rest =~= Seq::<u8>::empty() + a.source.rest);
        assert(a.source.rest.skip(0) =~= a.source.rest);
        none
    } else {
        let first = item_was_written(a);
        progress::item_progress(a.source, a.depth, a.keys);
        if let Ok(item) = a.item().result {
            let b = a.at(a.item().left);
            let more = elements_were_written(b, (n - 1) as nat, done.push(item));
            let all = seq![first] + more;
            first_and_more(first, more, a.source.capacity);
            let left = a.elements(n, done).left;
            if let Ok(items) = a.elements(n, done).result {
                assert(items =~= done + writing::items_of(all));
                consumed_in_two(
                    a.source,
                    b.source,
                    left,
                    first.bytes(),
                    writing::bytes_of(more),
                );
            }
            all
        } else {
            Seq::empty()
        }
    }
}

/// Elements that are read up to the break were written, and so was the break.
proof fn open_elements_were_written(a: Run, done: Seq<Item>) -> (elements: Seq<Writing>)
    ensures
        a.open_elements(done).result matches Ok(items) ==> {
            &&& all_sound(elements, a.source.capacity)
            &&& items == done + writing::items_of(elements)
            &&& consumed(
                a.source,
                a.open_elements(done).left,
                writing::bytes_of(elements) + seq![0xffu8],
            )
        },
    decreases a.depth, a.source.rest.len(), 2int,
{
    if a.source.rest.len() == 0 {
        Seq::empty()
    } else if a.source.rest[0] == 0xff {
        let none = Seq::<Writing>::empty();
        assert(done + writing::items_of(none) =~= done);
        assert(writing::bytes_of(none) + seq![0xffu8] =~= seq![0xffu8]);
        assert(a.source.rest =~= seq![0xffu8] + a.source.advance(1).rest);
        none
    } else {
        let first = item_was_written(a);
        progress::item_progress(a.source, a.depth, a.keys);
        if let Ok(item) = a.item().result {
            let b = a.at(a.item().left);
            let more = open_elements_were_written(b, done.push(item));
            let all = seq![first] + more;
            first_and_more(first, more, a.source.capacity);
            let left = a.open_elements(done).left;
            if let Ok(items) = a.open_elements(done).result {
                assert(items =~= done + writing::items_of(all));
                let tail = writing::bytes_of(more) + seq![0xffu8];
                consumed_in_two(a.source, b.source, left, first.bytes(), tail);
                assert(first.bytes() + tail =~= writing::bytes_of(all) + seq![0xffu8]);
            }
            all
        } else {
            Seq::empty()
        }
    }
}

/// A key and a value that are read were written.
proof fn entry_was_written(a: Run) -> (pair: (Writing, Writing))
    ensures
        a.entry().result matches Ok(items) ==> {
            &&& pair.0.sound(a.source.capacity)
            &&& pair.1.sound(a.source.capacity)
            &&& items == (pair.0.item(), pair.1.item())
            &&& consumed(a.source, a.entry().left, pair.0.bytes() + pair.1.bytes())
        },
    decreases a.depth, 0int, 2int,
{
    let key = item_was_written(a);
    progress::item_progress(a.source, a.depth, a.keys);
    let b = a.at(a.item().left);
    let value = item_was_written(b);
    if a.entry().result is Ok {
        consumed_in_two(a.source, b.source, a.entry().left, key.bytes(), value.bytes());
    }
    (key, value)
}

/// Entries that are read were written.
proof fn entries_were_written(a: Run, n: nat, done: Seq<(Item, Item)>) -> (entries: Seq<
    (Writing, Writing),
>)
    ensures
        a.entries(n, done).result matches Ok(items) ==> {
            &&& entries.len() == n
            &&& all_pairs_sound(entries, a.source.capacity)
            &&& items == done + writing::items_of_pairs(entries)
            &&& consumed(a.source, a.entries(n, done).left, writing::bytes_of_pairs(entries))
        },
    decreases a.depth, n, 3int,
{
    if n == 0 {
        let none = Seq::<(Writing, Writing)>::empty();
        assert(done + writing::items_of_pairs(none) =~= done);
        assert(a.source.rest =~= Seq::<u8>::empty() + a.source.rest);
        assert(a.source.rest.skip(0) =~= a.source.rest);
        none
    } else {
        let first = entry_was_written(a);
        progress::entry_progress(a.source, a.depth, a.keys);
        if let Ok(pair) = a.entry().result {
            let b = a.at(a.entry().left);
            let more = entries_were_written(b, (n - 1) as nat, done.push(pair));
            let all = seq![first] + more;
            first_and_more_pairs(first, more, a.source.capacity);
            let left = a.entries(n, done).left;
            if let Ok(items) = a.entries(n, done).result {
                assert(items =~= done + writing::items_of_pairs(all));
                let bytes = first.0.bytes() + first.1.bytes();
                let tail = writing::bytes_of_pairs(more);
                consumed_in_two(a.source, b.source, left, bytes, tail);
                assert(bytes + tail =~= writing::bytes_of_pairs(all));
            }
            all
        } else {
            Seq::empty()
        }
    }
}

/// Entries that are read up to the break were written, and so was the break.
proof fn open_entries_were_written(a: Run, done: Seq<(Item, Item)>) -> (entries: Seq<
    (Writing, Writing),
>)
    ensures
        a.open_entries(done).result matches Ok(items) ==> {
            &&& all_pairs_sound(entries, a.source.capacity)
            &&& items == done + writing::items_of_pairs(entries)
            &&& consumed(
                a.source,
                a.open_entries(done).left,
                writing::bytes_of_pairs(entries) + seq![0xffu8],
            )
        },
    decreases a.depth, a.source.rest.len(), 3int,
{
    if a.source.rest.len() == 0 {
        Seq::empty()
    } else if a.source.rest[0] == 0xff {
        let none = Seq::<(Writing, Writing)>::empty();
        assert(done + writing::items_of_pairs(none) =~= done);
        assert(writing::bytes_of_pairs(none) + seq![0xffu8] =~= seq![0xffu8]);
        assert(a.source.rest =~= seq![0xffu8] + a.source.advance(1).rest);
        none
    } else {
        let first = entry_was_written(a);
        progress::entry_progress(a.source, a.depth, a.keys);
        if let Ok(pair) = a.entry().result {
            let b = a.at(a.entry().left);
            let more = open_entries_were_written(b, done.push(pair));
            let all = seq![first] + more;
            first_and_more_pairs(first, more, a.source.capacity);
            let left = a.open_entries(done).left;
            if let Ok(items) = a.open_entries(done).result {
                assert(items =~= done + writing::items_of_pairs(all));
                let bytes = first.0.bytes() + first.1.bytes();
                let tail = writing::bytes_of_pairs(more) + seq![0xffu8];
                consumed_in_two(a.source, b.source, left, bytes, tail);
                assert(bytes + tail =~= writing::bytes_of_pairs(all) + seq![0xffu8]);
            }
            all
        } else {
            Seq::empty()
        }
    }
}

/// A CID that is read was written.
proof fn link_was_written(s: Source) -> (w: Writing)
    ensures
        grammar::link(s).result matches Ok(content) ==> {
            &&& w is Link
            &&& w.sound(s.capacity)
            &&& w.item() == Item::Link(content)
            &&& consumed(s, grammar::link(s).left, w.body_bytes())
        },
{
    if s.rest.len() > 0 && grammar::major(s.rest[0]) == 2 && grammar::info(s.rest[0]) <= 27 {
        let piece = piece_was_written(s);
        assert(seq![piece][0] == piece);
        let content = piece.content.skip(1);
        if grammar::link(s).result is Ok {
            assert(seq![piece.content[0]] + content =~= piece.content);
        }
        Writing::Link { prefix: piece.content[0], content, width: piece.width }
    } else {
        Writing::Null
    }
}

/// A list that is read was written.
#[verifier::rlimit(50)]
proof fn list_was_written(a: Run, h: Writing) -> (w: Writing)
    requires
        accounts_for_head(h, a.source, grammar::head(a.source)),
        grammar::head(a.source).result matches Ok(Head::Array(_)) || grammar::head(
            a.source,
        ).result matches Ok(Head::IndefiniteArray),
        a.depth > 1,
    ensures
        accounts_for(w, a.source, a.item()),
    decreases a.depth, 0int, 0int,
{
    let s = a.source;
    let read = grammar::head(s);
    progress::head_progress(s);
    let b = a.down(read.left);
    let elements = match h {
        Writing::List { elements: e, width } => elements_were_written(b, e.len(), Seq::empty()),
        _ => open_elements_were_written(b, Seq::empty()),
    };
    let w = match h {
        Writing::List { elements: e, width } => Writing::List { elements, width },
        _ => Writing::OpenList { elements },
    };
    if a.item().result is Ok {
        assert(Seq::<Item>::empty() + writing::items_of(elements) =~= writing::items_of(elements));
        consumed_in_two(s, b.source, a.item().left, h.head_bytes(), w.body_bytes());
    }
    w
}

/// A map that is read was written.
#[verifier::rlimit(50)]
proof fn map_was_written(a: Run, h: Writing) -> (w: Writing)
    requires
        accounts_for_head(h, a.source, grammar::head(a.source)),
        grammar::head(a.source).result matches Ok(Head::Mapping(_)) || grammar::head(
            a.source,
        ).result matches Ok(Head::IndefiniteMapping),
        a.depth > 1,
    ensures
        accounts_for(w, a.source, a.item()),
    decreases a.depth, 0int, 0int,
{
    let s = a.source;
    let read = grammar::head(s);
    progress::head_progress(s);
    let b = a.down(read.left);
    let entries = match h {
        Writing::Mapping { entries: e, width } => entries_were_written(b, e.len(), Seq::empty()),
        _ => open_entries_were_written(b, Seq::empty()),
    };
    let w = match h {
        Writing::Mapping { entries: e, width } => Writing::Mapping { entries, width },
        _ => Writing::OpenMapping { entries },
    };
    if a.item().result is Ok {
        assert(Seq::<(Item, Item)>::empty() + writing::items_of_pairs(entries)
            =~= writing::items_of_pairs(entries));
        consumed_in_two(s, b.source, a.item().left, h.head_bytes(), w.body_bytes());
    }
    w
}

/// A CID with its tag that is read was written.
#[verifier::rlimit(50)]
proof fn tagged_link_was_written(a: Run, h: Writing) -> (w: Writing)
    requires
        accounts_for_head(h, a.source, grammar::head(a.source)),
        grammar::head(a.source).result matches Ok(Head::Cid),
        a.depth > 1,
    ensures
        accounts_for(w, a.source, a.item()),
{
    let s = a.source;
    let read = grammar::head(s);
    let w = link_was_written(read.left);
    progress::head_progress(s);
    if a.item().result is Ok {
        consumed_in_two(s, read.left, a.item().left, h.head_bytes(), w.body_bytes());
        assert(h.head_bytes() + w.body_bytes() =~= w.bytes());
    }
    w
}

/// An item that is all head was written where its head was.
#[verifier::rlimit(50)]
proof fn scalar_was_written(a: Run, h: Writing)
    requires
        accounts_for_head(h, a.source, grammar::head(a.source)),
        !grammar::nests(a.source),
    ensures
        accounts_for(h, a.source, a.item()),
{
    if grammar::head(a.source).result is Ok {
        reading::scalar_is_read(a, h);
    }
}

/// An item that is read was written: there is a writing of the item whose bytes are those that
/// were consumed.
pub proof fn item_was_written(a: Run) -> (w: Writing)
    ensures
        accounts_for(w, a.source, a.item()),
    decreases a.depth, 0int, 1int,
{
    let h = head_was_written(a.source);
    if a.depth > 1 && grammar::nests(a.source) {
        match h {
            Writing::List { .. } => list_was_written(a, h),
            Writing::OpenList { .. } => list_was_written(a, h),
            Writing::Mapping { .. } => map_was_written(a, h),
            Writing::OpenMapping { .. } => map_was_written(a, h),
            _ => tagged_link_was_written(a, h),
        }
    } else {
        if !grammar::nests(a.source) {
            scalar_was_written(a, h);
        }
        h
    }
}

} // verus!
