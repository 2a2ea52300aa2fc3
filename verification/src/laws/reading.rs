//! What is written is read back.

use vstd::prelude::*;
use vstd::arithmetic::power::pow;
use crate::error::Error;
use crate::grammar;
use crate::grammar::{Head, Item, Step};
use crate::laws;
use crate::laws::items;
use crate::laws::limits::Run;
use crate::laws::numbers;
use crate::laws::numbers::be_bytes;
use crate::laws::progress;
use crate::laws::writing;
use crate::laws::writing::{Piece, Writing};
use crate::read::Source;

verus! {

/// Two advances are one.
pub proof fn advances_add_up(s: Source, m: int, n: int)
    requires
        0 <= m,
        0 <= n,
        m + n <= s.rest.len(),
    ensures
        s.advance(m).advance(n) == s.advance(m + n),
{
    assert(s.advance(m).advance(n).rest =~= s.advance(m + n).rest);
}

/// What is left behind bytes that are in front.
pub proof fn advance_past(s: Source, front: Seq<u8>, following: Seq<u8>)
    requires
        s.rest == front + following,
    ensures
        s.advance(front.len() as int).rest == following,
        s.advance(front.len() as int).offset == s.offset + front.len(),
        s.rest.take(front.len() as int) == front,
        s.rest.len() == front.len() + following.len(),
        front.len() > 0 ==> s.rest[0] == front[0],
{
    assert(s.advance(front.len() as int).rest =~= following);
    assert(s.rest.take(front.len() as int) =~= front);
}

/// The powers that bound the numbers of each width.
pub proof fn powers()
    ensures
        pow(256, 1) == 0x100,
        pow(256, 2) == 0x1_0000,
        pow(256, 4) == 0x1_0000_0000,
        pow(256, 8) == 0x1_0000_0000_0000_0000,
{
    reveal_with_fuel(pow, 9);
}

/// A number comes back from its initial byte and what follows it.
pub proof fn numbered_is_read(s: Source, kind: int, n: nat, width: nat, following: Seq<u8>)
    requires
        0 <= kind <= 7,
        writing::fits(n, width),
        s.rest == writing::numbered(kind, n, width) + following,
    ensures
        s.rest.len() > 0,
        grammar::major(s.rest[0]) == kind,
        grammar::info(s.rest[0]) == (if width == 0 {
            n as int
        } else if width == 1 {
            24
        } else if width == 2 {
            25
        } else if width == 4 {
            26
        } else {
            27
        }),
        grammar::width(grammar::info(s.rest[0])) == width,
        writing::numbered(kind, n, width).len() == 1 + width,
        grammar::argument(s.advance(1), grammar::info(s.rest[0])) == (Step {
            result: Ok(n),
            left: s.advance(1 + width as int),
        }),
        width > 0 ==> grammar::number(s.advance(1), width as int) == (Step {
            result: Ok(n),
            left: s.advance(1 + width as int),
        }),
        s.advance(1 + width as int).rest == following,
{
    powers();
    let front = writing::numbered(kind, n, width);
    let s1 = s.advance(1);
    if width == 0 {
        advance_past(s, front, following);
    } else {
        numbers::numbers_come_back(n, width);
        advance_past(s, front, following);
        assert(front[0] == s.rest[0]);
        assert(s1.rest =~= be_bytes(n, width) + following);
        numbers::numbers_are_read_back(n, width, following, s1);
        advances_add_up(s, 1, width as int);
    }
}

/// A length comes back from its initial byte and what follows it.
pub proof fn length_is_read(s: Source, kind: int, n: nat, width: nat, following: Seq<u8>)
    requires
        0 <= kind <= 7,
        writing::fits(n, width),
        n <= usize::MAX,
        s.rest == writing::numbered(kind, n, width) + following,
    ensures
        grammar::length(s.advance(1), grammar::info(s.rest[0])) == (Step {
            result: Ok(n),
            left: s.advance(1 + width as int),
        }),
{
    numbered_is_read(s, kind, n, width, following);
}

/// A string with its length comes back.
pub proof fn piece_is_read(s: Source, kind: int, piece: Piece, following: Seq<u8>)
    requires
        0 <= kind <= 7,
        writing::measured(seq![piece]),
        s.rest == writing::piece_bytes(kind, piece) + following,
    ensures
        ({
            let len = grammar::length(s.advance(1), grammar::info(s.rest[0]));
            &&& s.rest.len() > 0
            &&& grammar::major(s.rest[0]) == kind
            &&& grammar::info(s.rest[0]) <= 27
            &&& len.result == Ok::<nat, Error>(piece.content.len())
            &&& len.left.capacity == s.capacity
            &&& len.left.rest.len() >= piece.content.len()
            &&& len.left.offset + piece.content.len() == s.offset + writing::piece_bytes(
                kind,
                piece,
            ).len()
            &&& len.left.rest.take(piece.content.len() as int) == piece.content
            &&& len.left.advance(piece.content.len() as int) == s.advance(
                writing::piece_bytes(kind, piece).len() as int,
            )
            &&& s.advance(writing::piece_bytes(kind, piece).len() as int).rest == following
        }),
{
    assert(seq![piece][0] == piece);
    let front = writing::numbered(kind, piece.content.len(), piece.width);
    assert(s.rest =~= front + (piece.content + following));
    numbered_is_read(s, kind, piece.content.len(), piece.width, piece.content + following);
    length_is_read(s, kind, piece.content.len(), piece.width, piece.content + following);
    let s2 = s.advance(1 + piece.width as int);
    advance_past(s2, piece.content, following);
    advance_past(s, writing::piece_bytes(kind, piece), following);
    advances_add_up(s, 1 + piece.width as int, piece.content.len() as int);
}

/// The pieces of a string come back joined.
pub proof fn pieces_are_read(
    s: Source,
    kind: int,
    held: Seq<u8>,
    pieces: Seq<Piece>,
    following: Seq<u8>,
)
    requires
        2 <= kind <= 3,
        writing::measured(pieces),
        writing::has_room(s.capacity, held.len() + writing::joined(pieces).len()),
        s.rest == writing::pieces_bytes(kind, pieces) + (seq![0xffu8] + following),
    ensures
        grammar::pieces(s, kind, held) == (Step {
            result: Ok(held + writing::joined(pieces)),
            left: s.advance(writing::pieces_bytes(kind, pieces).len() + 1int),
        }),
        s.advance(writing::pieces_bytes(kind, pieces).len() + 1int).rest == following,
    decreases pieces.len(),
{
    let all = writing::pieces_bytes(kind, pieces);
    assert(s.advance(all.len() + 1int).rest =~= following);
    if pieces.len() == 0 {
        assert(s.rest[0] == 0xff);
        assert(held + writing::joined(pieces) =~= held);
    } else {
        let piece = pieces[0];
        let more = pieces.drop_first();
        let rest = writing::pieces_bytes(kind, more) + (seq![0xffu8] + following);
        let first = writing::piece_bytes(kind, piece);
        assert(s.rest =~= first + rest);
        piece_is_read(s, kind, piece, rest);
        let after = s.advance(first.len() as int);
        pieces_are_read(after, kind, held + piece.content, more, following);
        assert(held + piece.content + writing::joined(more) =~= held + writing::joined(pieces));
        advances_add_up(s, first.len() as int, writing::pieces_bytes(kind, more).len() + 1int);
    }
}

proof fn byte_string_head_is_read(s: Source, piece: Piece, following: Seq<u8>)
    requires
        writing::measured(seq![piece]),
        s.rest == writing::piece_bytes(2, piece) + following,
    ensures
        grammar::head(s) == (Step {
            result: Ok(Head::Bytes(piece.content)),
            left: s.advance(writing::piece_bytes(2, piece).len() as int),
        }),
{
    piece_is_read(s, 2, piece, following);
}

proof fn text_string_head_is_read(s: Source, piece: Piece, following: Seq<u8>)
    requires
        writing::measured(seq![piece]),
        vstd::utf8::valid_utf8(piece.content),
        s.rest == writing::piece_bytes(3, piece) + following,
        s.offset + s.rest.len() <= u64::MAX,
    ensures
        grammar::head(s) == (Step {
            result: Ok(Head::Str(vstd::utf8::decode_utf8(piece.content))),
            left: s.advance(writing::piece_bytes(3, piece).len() as int),
        }),
{
    piece_is_read(s, 3, piece, following);
}

proof fn open_string_head_is_read(s: Source, kind: int, pieces: Seq<Piece>, following: Seq<u8>)
    requires
        2 <= kind <= 3,
        writing::measured(pieces),
        writing::has_room(s.capacity, writing::joined(pieces).len()),
        kind == 3 ==> vstd::utf8::valid_utf8(writing::joined(pieces)),
        s.rest == seq![(kind * 32 + 31) as u8] + (writing::pieces_bytes(kind, pieces)
            + seq![0xffu8]) + following,
    ensures
        grammar::head(s) == (Step {
            result: Ok(
                if kind == 2 {
                    Head::Bytes(writing::joined(pieces))
                } else {
                    Head::Str(vstd::utf8::decode_utf8(writing::joined(pieces)))
                },
            ),
            left: s.advance(writing::pieces_bytes(kind, pieces).len() + 2int),
        }),
{
    let s1 = s.advance(1);
    assert(s.rest[0] == (kind * 32 + 31) as u8);
    assert(s1.rest =~= writing::pieces_bytes(kind, pieces) + (seq![0xffu8] + following));
    pieces_are_read(s1, kind, Seq::empty(), pieces, following);
    assert(Seq::<u8>::empty() + writing::joined(pieces) =~= writing::joined(pieces));
    advances_add_up(s, 1, writing::pieces_bytes(kind, pieces).len() + 1int);
}

proof fn float_head_is_read(s: Source, w: Writing, following: Seq<u8>)
    requires
        w is F16 || w is F32 || w is F64,
        s.rest == w.bytes() + following,
    ensures
        grammar::head(s) == (Step {
            result: Ok(w.head()),
            left: s.advance(w.bytes().len() as int),
        }),
{
    powers();
    let (bits, width) = match w {
        Writing::F16(bits) => (bits as nat, 2nat),
        Writing::F32(bits) => (bits as nat, 4nat),
        Writing::F64(bits) => (bits as nat, 8nat),
        _ => (0nat, 0nat),
    };
    let s1 = s.advance(1);
    numbers::numbers_come_back(bits, width);
    advance_past(s, w.bytes(), following);
    assert(s1.rest =~= be_bytes(bits, width) + following);
    numbers::numbers_are_read_back(bits, width, following, s1);
    advances_add_up(s, 1, width as int);
}

proof fn integer_head_is_read(s: Source, w: Writing, following: Seq<u8>)
    requires
        w is Unsigned || w is Negative,
        w.sound(s.capacity),
        s.rest == w.bytes() + following,
    ensures
        grammar::head(s) == (Step {
            result: Ok(w.head()),
            left: s.advance(w.bytes().len() as int),
        }),
{
    match w {
        Writing::Unsigned { n, width } => numbered_is_read(s, 0, n, width, following),
        Writing::Negative { n, width } => numbered_is_read(s, 1, n, width, following),
        _ => {},
    }
}

proof fn container_head_is_read(s: Source, w: Writing, following: Seq<u8>)
    requires
        w is List || w is OpenList || w is Mapping || w is OpenMapping,
        w.sound(s.capacity),
        s.rest == w.head_bytes() + following,
    ensures
        grammar::head(s) == (Step {
            result: Ok(w.head()),
            left: s.advance(w.head_bytes().len() as int),
        }),
{
    advance_past(s, w.head_bytes(), following);
    match w {
        Writing::List { elements, width } => {
            numbered_is_read(s, 4, elements.len(), width, following);
            length_is_read(s, 4, elements.len(), width, following);
        },
        Writing::Mapping { entries, width } => {
            numbered_is_read(s, 5, entries.len(), width, following);
            length_is_read(s, 5, entries.len(), width, following);
        },
        _ => {},
    }
}

/// The head of whatever is written comes back, whatever follows it.
pub proof fn head_is_read(s: Source, w: Writing, following: Seq<u8>)
    requires
        w.sound(s.capacity),
        s.rest == w.head_bytes() + following,
        s.offset + s.rest.len() <= u64::MAX,
    ensures
        grammar::head(s) == (Step {
            result: Ok(w.head()),
            left: s.advance(w.head_bytes().len() as int),
        }),
        s.advance(w.head_bytes().len() as int).rest == following,
        w.head_bytes().len() > 0,
{
    advance_past(s, w.head_bytes(), following);
    match w {
        Writing::Null => {},
        Writing::Bool(_) => {},
        Writing::Unsigned { .. } => integer_head_is_read(s, w, following),
        Writing::Negative { .. } => integer_head_is_read(s, w, following),
        Writing::F16(_) => float_head_is_read(s, w, following),
        Writing::F32(_) => float_head_is_read(s, w, following),
        Writing::F64(_) => float_head_is_read(s, w, following),
        Writing::Bytes(piece) => byte_string_head_is_read(s, piece, following),
        Writing::OpenBytes(pieces) => open_string_head_is_read(s, 2, pieces, following),
        Writing::Str(piece) => text_string_head_is_read(s, piece, following),
        Writing::OpenStr(pieces) => open_string_head_is_read(s, 3, pieces, following),
        Writing::Link { .. } => laws::only_cids_are_tagged(s),
        _ => container_head_is_read(s, w, following),
    }
    progress::head_progress(s);
}

/// A CID comes back without the byte in front of it.
pub proof fn link_is_read(s: Source, prefix: u8, content: Seq<u8>, width: nat, following: Seq<u8>)
    requires
        writing::fits(content.len() + 1, width),
        content.len() + 1 <= usize::MAX,
        s.rest == writing::piece_bytes(2, Piece { content: seq![prefix] + content, width })
            + following,
    ensures
        ({
            let piece = Piece { content: seq![prefix] + content, width };
            grammar::link(s) == (Step {
                result: Ok(content),
                left: s.advance(writing::piece_bytes(2, piece).len() as int),
            })
        }),
{
    let piece = Piece { content: seq![prefix] + content, width };
    piece_is_read(s, 2, piece, following);
    assert(piece.content.skip(1) =~= content);
}

/// Each item of a list is that of its writing.
pub proof fn items_one_by_one(elements: Seq<Writing>)
    ensures
        writing::items_of(elements).len() == elements.len(),
        forall|i: int|
            0 <= i < elements.len() ==> #[trigger] writing::items_of(elements)[i]
                == elements[i].item(),
    decreases elements.len(),
{
    if elements.len() > 0 {
        let more = elements.subrange(1, elements.len() as int);
        items_one_by_one(more);
        assert forall|i: int| 0 <= i < elements.len() implies #[trigger] writing::items_of(
            elements,
        )[i] == elements[i].item() by {
            if i > 0 {
                assert(writing::items_of(elements)[i] == writing::items_of(more)[i - 1]);
                assert(more[i - 1] == elements[i]);
            }
        }
    }
}

/// Each pair of items of a map is that of its writings.
pub proof fn pairs_one_by_one(entries: Seq<(Writing, Writing)>)
    ensures
        writing::items_of_pairs(entries).len() == entries.len(),
        forall|i: int|
            0 <= i < entries.len() ==> #[trigger] writing::items_of_pairs(entries)[i] == (
            entries[i].0.item(), entries[i].1.item()),
    decreases entries.len(),
{
    if entries.len() > 0 {
        let more = entries.subrange(1, entries.len() as int);
        pairs_one_by_one(more);
        assert forall|i: int| 0 <= i < entries.len() implies #[trigger] writing::items_of_pairs(
            entries,
        )[i] == (entries[i].0.item(), entries[i].1.item()) by {
            if i > 0 {
                assert(writing::items_of_pairs(entries)[i] == writing::items_of_pairs(more)[i - 1]);
                assert(more[i - 1] == entries[i]);
            }
        }
    }
}

/// What the bytes of an item begin with.
pub proof fn bytes_begin(w: Writing, limit: Option<nat>)
    requires
        w.sound(limit),
    ensures
        w.bytes().len() > 0,
        w.bytes() == w.head_bytes() + w.body_bytes(),
        w.bytes()[0] != 0xff,
        w.bytes()[0] <= 0x1b <==> w is Unsigned,
        0x60 <= w.bytes()[0] <= 0x7f <==> w is Str || w is OpenStr,
{
    assert(w.bytes() =~= w.head_bytes() + w.body_bytes());
    match w {
        Writing::Bytes(piece) => assert(seq![piece][0] == piece),
        Writing::Str(piece) => assert(seq![piece][0] == piece),
        _ => {},
    }
}

/// Items that are accepted are read back, one after the other.
pub proof fn elements_are_read(
    a: Run,
    elements: Seq<Writing>,
    following: Seq<u8>,
    done: Seq<Item>,
)
    requires
        forall|i: int|
            0 <= i < elements.len() ==> (#[trigger] elements[i]).sound(a.source.capacity)
                && items::accepted(elements[i].item(), a.depth, a.keys),
        a.source.rest == writing::bytes_of(elements) + following,
        a.source.offset + a.source.rest.len() <= u64::MAX,
    ensures
        a.elements(elements.len(), done) == (Step {
            result: Ok(done + writing::items_of(elements)),
            left: a.source.advance(writing::bytes_of(elements).len() as int),
        }),
        a.source.advance(writing::bytes_of(elements).len() as int).rest == following,
    decreases a.depth, elements.len(), 2int,
{
    let s = a.source;
    advance_past(s, writing::bytes_of(elements), following);
    if elements.len() == 0 {
        assert(done + writing::items_of(elements) =~= done);
        assert(s.rest.skip(0) =~= s.rest);
    } else {
        let first = elements[0];
        let more = elements.subrange(1, elements.len() as int);
        assert forall|i: int| 0 <= i < more.len() implies (#[trigger] more[i]).sound(s.capacity)
            && items::accepted(more[i].item(), a.depth, a.keys) by {
            assert(more[i] == elements[i + 1]);
        }
        let rest = writing::bytes_of(more) + following;
        assert(s.rest =~= first.bytes() + rest);
        item_is_read(a, first, rest);
        let b = a.at(s.advance(first.bytes().len() as int));
        elements_are_read(b, more, following, done.push(first.item()));
        assert(done.push(first.item()) + writing::items_of(more) =~= done + writing::items_of(
            elements,
        ));
        advances_add_up(s, first.bytes().len() as int, writing::bytes_of(more).len() as int);
    }
}

/// Whether a key and a value are written soundly, and are accepted.
pub open spec fn pair_accepted(a: Run, pair: (Writing, Writing)) -> bool {
    &&& pair.0.sound(a.source.capacity)
    &&& pair.1.sound(a.source.capacity)
    &&& items::key_accepted(pair.0.item(), a.keys)
    &&& items::accepted(pair.0.item(), a.depth, a.keys)
    &&& items::accepted(pair.1.item(), a.depth, a.keys)
}

/// A key and a value that are accepted are read back.
#[verifier::rlimit(50)]
pub proof fn entry_is_read(a: Run, pair: (Writing, Writing), following: Seq<u8>)
    requires
        pair_accepted(a, pair),
        a.source.rest == pair.0.bytes() + (pair.1.bytes() + following),
        a.source.offset + a.source.rest.len() <= u64::MAX,
    ensures
        grammar::key(a.source, a.keys) is Ok,
        a.entry() == (Step {
            result: Ok((pair.0.item(), pair.1.item())),
            left: a.source.advance((pair.0.bytes().len() + pair.1.bytes().len()) as int),
        }),
        a.source.advance((pair.0.bytes().len() + pair.1.bytes().len()) as int).rest == following,
    decreases a.depth, 0int, 2int,
{
    let s = a.source;
    let (key, value) = pair;
    bytes_begin(key, s.capacity);
    advance_past(s, key.bytes(), value.bytes() + following);
    item_is_read(a, key, value.bytes() + following);
    let b = a.at(s.advance(key.bytes().len() as int));
    item_is_read(b, value, following);
    advance_past(b.source, value.bytes(), following);
    advances_add_up(s, key.bytes().len() as int, value.bytes().len() as int);
}

/// Pairs of items that are accepted are read back, one after the other.
#[verifier::rlimit(50)]
pub proof fn entries_are_read(
    a: Run,
    entries: Seq<(Writing, Writing)>,
    following: Seq<u8>,
    done: Seq<(Item, Item)>,
)
    requires
        forall|i: int| 0 <= i < entries.len() ==> pair_accepted(a, #[trigger] entries[i]),
        a.source.rest == writing::bytes_of_pairs(entries) + following,
        a.source.offset + a.source.rest.len() <= u64::MAX,
    ensures
        a.entries(entries.len(), done) == (Step {
            result: Ok(done + writing::items_of_pairs(entries)),
            left: a.source.advance(writing::bytes_of_pairs(entries).len() as int),
        }),
        a.source.advance(writing::bytes_of_pairs(entries).len() as int).rest == following,
    decreases a.depth, entries.len(), 3int,
{
    let s = a.source;
    advance_past(s, writing::bytes_of_pairs(entries), following);
    if entries.len() == 0 {
        assert(done + writing::items_of_pairs(entries) =~= done);
        assert(s.rest.skip(0) =~= s.rest);
    } else {
        let first = entries[0];
        let more = entries.subrange(1, entries.len() as int);
        let rest = writing::bytes_of_pairs(more) + following;
        assert(s.rest =~= first.0.bytes() + (first.1.bytes() + rest));
        entry_is_read(a, first, rest);
        let n = first.0.bytes().len() + first.1.bytes().len();
        let b = a.at(s.advance(n as int));
        let pair = (first.0.item(), first.1.item());
        assert forall|i: int| 0 <= i < more.len() implies pair_accepted(b, #[trigger] more[i]) by {
            assert(more[i] == entries[i + 1]);
            assert(pair_accepted(a, entries[i + 1]));
        }
        entries_are_read(b, more, following, done.push(pair));
        assert(done.push(pair) + writing::items_of_pairs(more) =~= done + writing::items_of_pairs(
            entries,
        ));
        advances_add_up(s, n as int, writing::bytes_of_pairs(more).len() as int);
    }
}

/// What is written, and is accepted, is read back: the item, and the bytes behind it.
#[verifier::rlimit(50)]
pub proof fn item_is_read(a: Run, w: Writing, following: Seq<u8>)
    requires
        w.sound(a.source.capacity),
        items::accepted(w.item(), a.depth, a.keys),
        a.source.rest == w.bytes() + following,
        a.source.offset + a.source.rest.len() <= u64::MAX,
    ensures
        a.item() == (Step {
            result: Ok(w.item()),
            left: a.source.advance(w.bytes().len() as int),
        }),
        a.source.advance(w.bytes().len() as int).rest == following,
    decreases a.depth, 0int, 1int,
{
    let s = a.source;
    let head = w.head_bytes();
    let body = w.body_bytes();
    bytes_begin(w, s.capacity);
    advance_past(s, w.bytes(), following);
    assert(s.rest =~= head + (body + following));
    head_is_read(s, w, body + following);
    let b = a.down(s.advance(head.len() as int));
    match w {
        Writing::List { elements, width } => {
            items_one_by_one(elements);
            contained_are_accepted(elements, a);
            elements_are_read(b, elements, following, Seq::empty());
            advances_add_up(s, head.len() as int, body.len() as int);
            assert(Seq::<Item>::empty() + writing::items_of(elements) =~= writing::items_of(
                elements,
            ));
        },
        Writing::OpenList { elements } => {
            items_one_by_one(elements);
            contained_are_accepted(elements, a);
            let inner = writing::bytes_of(elements);
            assert(b.source.rest =~= inner + (seq![0xffu8] + following));
            elements_are_read(b, elements, seq![0xffu8] + following, Seq::empty());
            laws::elements_may_be_counted(
                b.source,
                elements.len(),
                b.depth,
                b.keys,
                Seq::empty(),
            );
            advances_add_up(b.source, inner.len() as int, 1);
            advances_add_up(s, head.len() as int, body.len() as int);
            assert(Seq::<Item>::empty() + writing::items_of(elements) =~= writing::items_of(
                elements,
            ));
        },
        Writing::Mapping { entries, width } => {
            pairs_one_by_one(entries);
            contained_pairs_are_accepted(entries, a);
            entries_are_read(b, entries, following, Seq::empty());
            advances_add_up(s, head.len() as int, body.len() as int);
            assert(Seq::<(Item, Item)>::empty() + writing::items_of_pairs(entries)
                =~= writing::items_of_pairs(entries));
        },
        Writing::OpenMapping { entries } => {
            pairs_one_by_one(entries);
            contained_pairs_are_accepted(entries, a);
            let inner = writing::bytes_of_pairs(entries);
            assert(b.source.rest =~= inner + (seq![0xffu8] + following));
            entries_are_read(b, entries, seq![0xffu8] + following, Seq::empty());
            laws::entries_may_be_counted(
                b.source,
                entries.len(),
                b.depth,
                b.keys,
                Seq::empty(),
            );
            advances_add_up(b.source, inner.len() as int, 1);
            advances_add_up(s, head.len() as int, body.len() as int);
            assert(Seq::<(Item, Item)>::empty() + writing::items_of_pairs(entries)
                =~= writing::items_of_pairs(entries));
        },
        Writing::Link { prefix, content, width } => {
            link_is_read(b.source, prefix, content, width, following);
            advances_add_up(s, head.len() as int, body.len() as int);
        },
        _ => {
            scalar_is_read(a, w);
        },
    }
}

/// An item that begins with all of it is the item of its head.
pub proof fn scalar_is_read(a: Run, w: Writing)
    requires
        w.sound(a.source.capacity),
        w.head_bytes() == w.bytes(),
        !(w is List || w is OpenList || w is Mapping || w is OpenMapping || w is Link),
        grammar::head(a.source) == (Step {
            result: Ok(w.head()),
            left: a.source.advance(w.bytes().len() as int),
        }),
    ensures
        a.item() == (Step {
            result: Ok(w.item()),
            left: a.source.advance(w.bytes().len() as int),
        }),
{
}

/// The elements of a list that is accepted are accepted.
pub proof fn contained_are_accepted(elements: Seq<Writing>, a: Run)
    requires
        items::accepted(Item::List(writing::items_of(elements)), a.depth, a.keys),
    ensures
        a.depth > 1,
        forall|i: int|
            0 <= i < elements.len() ==> items::accepted(
                (#[trigger] elements[i]).item(),
                (a.depth - 1) as nat,
                a.keys,
            ),
{
    items_one_by_one(elements);
    let all = writing::items_of(elements);
    assert forall|i: int| 0 <= i < elements.len() implies items::accepted(
        (#[trigger] elements[i]).item(),
        (a.depth - 1) as nat,
        a.keys,
    ) by {
        assert(all[i] == elements[i].item());
        items::elements_of_accepted(all, a.depth, a.keys, i);
    }
}

/// The keys and values of a map that is accepted are accepted.
pub proof fn contained_pairs_are_accepted(entries: Seq<(Writing, Writing)>, a: Run)
    requires
        items::accepted(Item::Mapping(writing::items_of_pairs(entries)), a.depth, a.keys),
    ensures
        a.depth > 1,
        forall|i: int|
            0 <= i < entries.len() ==> items::key_accepted(
                (#[trigger] entries[i]).0.item(),
                a.keys,
            ) && items::accepted(entries[i].0.item(), (a.depth - 1) as nat, a.keys)
                && items::accepted(entries[i].1.item(), (a.depth - 1) as nat, a.keys),
{
    pairs_one_by_one(entries);
    let all = writing::items_of_pairs(entries);
    assert forall|i: int| 0 <= i < entries.len() implies items::key_accepted(
        (#[trigger] entries[i]).0.item(),
        a.keys,
    ) && items::accepted(entries[i].0.item(), (a.depth - 1) as nat, a.keys) && items::accepted(
        entries[i].1.item(),
        (a.depth - 1) as nat,
        a.keys,
    ) by {
        assert(all[i] == (entries[i].0.item(), entries[i].1.item()));
    }
}

} // verus!
