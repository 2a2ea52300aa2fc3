//! What is refused, with which error, and at which place.

use vstd::prelude::*;
use crate::error::{Error, ErrorCode};
use crate::grammar;
use crate::grammar::{Head, Item, Step};
use crate::laws;
use crate::laws::items;
use crate::laws::limits::Run;
use crate::laws::progress;
use crate::laws::reading;
use crate::laws::writing;
use crate::laws::writing::{Piece, Writing};
use crate::read::Source;

verus! {

/// An error that was found once `n` more bytes of a source were consumed.
pub open spec fn found(s: Source, n: int, code: ErrorCode) -> Error {
    Error { code, offset: (s.offset + n) as u64 }
}

/// The initial bytes that mean nothing.
pub open spec fn is_unassigned(byte: u8) -> bool {
    ||| 0x1c <= byte <= 0x1f
    ||| 0x3c <= byte <= 0x3f
    ||| 0x5c <= byte <= 0x5e
    ||| 0x7c <= byte <= 0x7e
    ||| 0x9c <= byte <= 0x9e
    ||| 0xbc <= byte <= 0xbe
    ||| 0xdc <= byte <= 0xdf
    ||| 0xe0 <= byte <= 0xf3
    ||| byte == 0xf8
    ||| 0xfc <= byte <= 0xfe
}

/// The initial bytes that mean something else than what is accepted: tags other than those of one
/// byte, the undefined value, and the break.
pub open spec fn is_unexpected(byte: u8) -> bool {
    ||| 0xc0 <= byte <= 0xd7
    ||| 0xd9 <= byte <= 0xdb
    ||| byte == 0xf7
    ||| byte == 0xff
}

/// Initial bytes without a meaning, or with a meaning that is not accepted, are refused behind
/// them.
pub proof fn codes_are_refused(s: Source)
    requires
        s.rest.len() > 0,
    ensures
        is_unassigned(s.rest[0]) ==> grammar::head(s) == (Step::<Head> {
            result: Err(found(s, 1, ErrorCode::UnassignedCode)),
            left: s.advance(1),
        }),
        is_unexpected(s.rest[0]) ==> grammar::head(s) == (Step::<Head> {
            result: Err(found(s, 1, ErrorCode::UnexpectedCode)),
            left: s.advance(1),
        }),
{
}

/// A tag of one byte other than that of a CID is refused behind it.
pub proof fn other_tags_are_refused(s: Source)
    requires
        s.rest.len() > 1,
        s.rest[0] == 0xd8,
        s.rest[1] != 42,
    ensures
        grammar::head(s) == (Step::<Head> {
            result: Err(found(s, 2, ErrorCode::UnexpectedCode)),
            left: s.advance(2),
        }),
{
    reveal_with_fuel(grammar::big_endian, 2);
    reading::advances_add_up(s, 1, 1);
}

/// A refused head is a refused item.
pub proof fn heads_fail_items(a: Run)
    requires
        grammar::head(a.source).result is Err,
    ensures
        a.item().left == grammar::head(a.source).left,
        a.item().result == Err::<Item, Error>(grammar::head(a.source).result->Err_0),
{
}

/// Where no level of nesting is left to go down to, lists, maps and CIDs are refused behind their
/// heads.
pub proof fn nesting_is_refused(a: Run, w: Writing, following: Seq<u8>)
    requires
        w is List || w is OpenList || w is Mapping || w is OpenMapping || w is Link,
        w.sound(a.source.capacity),
        a.source.rest == w.head_bytes() + following,
        a.source.offset + a.source.rest.len() <= u64::MAX,
        a.depth <= 1,
    ensures
        a.item() == (Step::<Item> {
            result: Err(
                found(
                    a.source,
                    w.head_bytes().len() as int,
                    ErrorCode::RecursionLimitExceeded,
                ),
            ),
            left: a.source.advance(w.head_bytes().len() as int),
        }),
{
    reading::head_is_read(a.source, w, following);
}

/// A length that does not fit the machine is refused behind it.
pub proof fn lengths_are_refused(s: Source, kind: int, n: nat, width: nat, following: Seq<u8>)
    requires
        2 <= kind <= 5,
        writing::fits(n, width),
        n > usize::MAX,
        s.rest == writing::numbered(kind, n, width) + following,
    ensures
        grammar::head(s) == (Step::<Head> {
            result: Err(found(s, 1 + width as int, ErrorCode::LengthOutOfRange)),
            left: s.advance(1 + width as int),
        }),
{
    reading::numbered_is_read(s, kind, n, width, following);
}

/// A text whose end could not be named is refused behind its length.
pub proof fn texts_beyond_reach_are_refused(s: Source, n: nat, width: nat, following: Seq<u8>)
    requires
        writing::fits(n, width),
        n <= usize::MAX,
        s.offset + 1 + width + n > u64::MAX,
        s.rest == writing::numbered(3, n, width) + following,
    ensures
        grammar::head(s) == (Step::<Head> {
            result: Err(found(s, 1 + width as int, ErrorCode::LengthOutOfRange)),
            left: s.advance(1 + width as int),
        }),
{
    reading::numbered_is_read(s, 3, n, width, following);
}

/// A CID or a piece whose length does not fit the machine is refused behind the length.
pub proof fn inner_lengths_are_refused(
    s: Source,
    kind: int,
    n: nat,
    width: nat,
    held: Seq<u8>,
    following: Seq<u8>,
)
    requires
        2 <= kind <= 3,
        writing::fits(n, width),
        n > usize::MAX,
        s.rest == writing::numbered(kind, n, width) + following,
    ensures
        kind == 2 ==> grammar::link(s) == (Step::<Seq<u8>> {
            result: Err(found(s, 1 + width as int, ErrorCode::LengthOutOfRange)),
            left: s.advance(1 + width as int),
        }),
        grammar::pieces(s, kind, held) == (Step::<Seq<u8>> {
            result: Err(found(s, 1 + width as int, ErrorCode::LengthOutOfRange)),
            left: s.advance(1 + width as int),
        }),
{
    reading::numbered_is_read(s, kind, n, width, following);
}

/// Whether bytes are valid as a text up to the place `n` and no further.
pub open spec fn breaks_at(bytes: Seq<u8>, n: int) -> bool {
    &&& 0 <= n < bytes.len()
    &&& vstd::utf8::valid_utf8(bytes.take(n))
    &&& forall|m: int| n < m <= bytes.len() ==> !vstd::utf8::valid_utf8(#[trigger] bytes.take(m))
}

/// A text with its length that is none is refused at the first byte that is not part of a text.
pub proof fn broken_texts_are_refused(s: Source, piece: Piece, at: int, following: Seq<u8>)
    requires
        writing::measured(seq![piece]),
        breaks_at(piece.content, at),
        s.rest == writing::piece_bytes(3, piece) + following,
        s.offset + s.rest.len() <= u64::MAX,
    ensures
        grammar::head(s) == (Step::<Head> {
            result: Err(found(s, 1 + piece.width + at, ErrorCode::InvalidUtf8)),
            left: s.advance(writing::piece_bytes(3, piece).len() as int),
        }),
{
    reading::piece_is_read(s, 3, piece, following);
    assert(seq![piece][0] == piece);
    let front = writing::numbered(3, piece.content.len(), piece.width);
    assert(s.rest =~= front + (piece.content + following));
    reading::numbered_is_read(
        s,
        3,
        piece.content.len(),
        piece.width,
        piece.content + following,
    );
    assert(piece.content.take(piece.content.len() as int) =~= piece.content);
    grammar::lemma_valid_up_to(piece.content, at as nat);
}

/// A text in pieces that is none is refused as many bytes before its end as are not part of a
/// text.
pub proof fn broken_pieces_are_refused(s: Source, pieces: Seq<Piece>, at: int, following: Seq<u8>)
    requires
        writing::measured(pieces),
        writing::has_room(s.capacity, writing::joined(pieces).len()),
        breaks_at(writing::joined(pieces), at),
        s.rest == Writing::OpenStr(pieces).bytes() + following,
        s.offset + s.rest.len() <= u64::MAX,
    ensures
        ({
            let n = Writing::OpenStr(pieces).bytes().len() as int;
            grammar::head(s) == (Step::<Head> {
                result: Err(
                    found(s, n - (writing::joined(pieces).len() - at), ErrorCode::InvalidUtf8),
                ),
                left: s.advance(n),
            })
        }),
{
    let content = writing::joined(pieces);
    let s1 = s.advance(1);
    assert(s.rest[0] == 0x7f);
    assert(s1.rest =~= writing::pieces_bytes(3, pieces) + (seq![0xffu8] + following));
    reading::pieces_are_read(s1, 3, Seq::empty(), pieces, following);
    assert(Seq::<u8>::empty() + content =~= content);
    reading::advances_add_up(s, 1, writing::pieces_bytes(3, pieces).len() + 1int);
    assert(content.take(content.len() as int) =~= content);
    grammar::lemma_valid_up_to(content, at as nat);
}

/// How the pieces of a string go on behind some that were read.
pub proof fn pieces_go_on(
    s: Source,
    kind: int,
    held: Seq<u8>,
    pieces: Seq<Piece>,
    following: Seq<u8>,
)
    requires
        2 <= kind <= 3,
        writing::measured(pieces),
        writing::has_room(s.capacity, held.len() + writing::joined(pieces).len()),
        s.rest == writing::pieces_bytes(kind, pieces) + following,
    ensures
        grammar::pieces(s, kind, held) == grammar::pieces(
            s.advance(writing::pieces_bytes(kind, pieces).len() as int),
            kind,
            held + writing::joined(pieces),
        ),
        s.advance(writing::pieces_bytes(kind, pieces).len() as int).rest == following,
    decreases pieces.len(),
{
    let all = writing::pieces_bytes(kind, pieces);
    reading::advance_past(s, all, following);
    if pieces.len() == 0 {
        assert(s.rest.skip(0) =~= s.rest);
        assert(held + writing::joined(pieces) =~= held);
    } else {
        let piece = pieces[0];
        let more = pieces.drop_first();
        let rest = writing::pieces_bytes(kind, more) + following;
        let first = writing::piece_bytes(kind, piece);
        assert(s.rest =~= first + rest);
        reading::piece_is_read(s, kind, piece, rest);
        let after = s.advance(first.len() as int);
        pieces_go_on(after, kind, held + piece.content, more, following);
        assert(held + piece.content + writing::joined(more) =~= held + writing::joined(pieces));
        reading::advances_add_up(
            s,
            first.len() as int,
            writing::pieces_bytes(kind, more).len() as int,
        );
    }
}

/// A string in pieces is refused behind an initial byte that begins neither a piece of its kind
/// nor is the break.
pub proof fn foreign_pieces_are_refused(
    s: Source,
    kind: int,
    pieces: Seq<Piece>,
    following: Seq<u8>,
)
    requires
        2 <= kind <= 3,
        writing::measured(pieces),
        writing::has_room(s.capacity, writing::joined(pieces).len()),
        s.rest == seq![(kind * 32 + 31) as u8] + (writing::pieces_bytes(kind, pieces)
            + following),
        following.len() > 0,
        following[0] != 0xff,
        !(kind * 32 <= following[0] < kind * 32 + 28),
    ensures
        ({
            let n = writing::pieces_bytes(kind, pieces).len() + 2int;
            grammar::head(s) == (Step::<Head> {
                result: Err(found(s, n, ErrorCode::UnexpectedCode)),
                left: s.advance(n),
            })
        }),
{
    let s1 = s.advance(1);
    let n = writing::pieces_bytes(kind, pieces).len();
    assert(s.rest[0] == (kind * 32 + 31) as u8);
    assert(s1.rest =~= writing::pieces_bytes(kind, pieces) + following);
    pieces_go_on(s1, kind, Seq::empty(), pieces, following);
    reading::advances_add_up(s, 1, n as int);
    reading::advances_add_up(s, 1 + n as int, 1);
}

/// A piece for which the scratch buffer has no room is refused behind its length.
#[verifier::rlimit(50)]
pub proof fn pieces_without_room_are_refused(
    s: Source,
    kind: int,
    pieces: Seq<Piece>,
    piece: Piece,
    following: Seq<u8>,
)
    requires
        2 <= kind <= 3,
        writing::measured(pieces),
        writing::measured(seq![piece]),
        writing::has_room(s.capacity, writing::joined(pieces).len()),
        !writing::has_room(s.capacity, writing::joined(pieces).len() + piece.content.len()),
        s.rest == seq![(kind * 32 + 31) as u8] + (writing::pieces_bytes(kind, pieces) + (
        writing::piece_bytes(kind, piece) + following)),
    ensures
        ({
            let n = writing::pieces_bytes(kind, pieces).len() + 2 + piece.width;
            grammar::head(s) == (Step::<Head> {
                result: Err(found(s, n as int, ErrorCode::ScratchTooSmall)),
                left: s.advance(n as int),
            })
        }),
{
    let s1 = s.advance(1);
    let n = writing::pieces_bytes(kind, pieces).len();
    let rest = writing::piece_bytes(kind, piece) + following;
    assert(s.rest[0] == (kind * 32 + 31) as u8);
    assert(s1.rest =~= writing::pieces_bytes(kind, pieces) + rest);
    pieces_go_on(s1, kind, Seq::empty(), pieces, rest);
    assert(Seq::<u8>::empty() + writing::joined(pieces) =~= writing::joined(pieces));
    let s2 = s1.advance(n as int);
    reading::advances_add_up(s, 1, n as int);
    reading::piece_is_read(s2, kind, piece, following);
    assert(seq![piece][0] == piece);
    let front = writing::numbered(kind, piece.content.len(), piece.width);
    assert(s2.rest =~= front + (piece.content + following));
    reading::numbered_is_read(
        s2,
        kind,
        piece.content.len(),
        piece.width,
        piece.content + following,
    );
    reading::advances_add_up(s, 1 + n as int, 1 + piece.width as int);
}

/// A CID that is no byte string with its length, or an empty one, is refused.
pub proof fn empty_and_foreign_links_are_refused(s: Source, width: nat, following: Seq<u8>)
    ensures
        s.rest.len() > 0 && !(0x40 <= s.rest[0] <= 0x5b) ==> grammar::link(s) == (Step::<Seq<u8>> {
            result: Err(found(s, 1, ErrorCode::UnexpectedCode)),
            left: s.advance(1),
        }),
        writing::fits(0, width) && s.rest == writing::numbered(2, 0, width) + following
            ==> grammar::link(s) == (Step::<Seq<u8>> {
            result: Err(found(s, 1 + width as int, ErrorCode::LengthOutOfRange)),
            left: s.advance(1 + width as int),
        }),
{
    if writing::fits(0, width) && s.rest == writing::numbered(2, 0, width) + following {
        reading::numbered_is_read(s, 2, 0, width, following);
    }
}

/// A CID that is refused behind its tag is a refused item.
pub proof fn links_fail_items(a: Run, following: Seq<u8>)
    requires
        a.source.rest == seq![0xd8u8, 0x2au8] + following,
        a.depth > 1,
        grammar::link(a.source.advance(2)).result is Err,
    ensures
        a.item().left == grammar::link(a.source.advance(2)).left,
        a.item().result == Err::<Item, Error>(grammar::link(a.source.advance(2)).result->Err_0),
{
    laws::only_cids_are_tagged(a.source);
}

/// A list fails as the first of its elements that fails, and leaves what that leaves.
pub proof fn lists_fail_with_their_elements(
    a: Run,
    before: Seq<Writing>,
    n: nat,
    following: Seq<u8>,
    done: Seq<Item>,
)
    requires
        forall|i: int|
            0 <= i < before.len() ==> (#[trigger] before[i]).sound(a.source.capacity)
                && items::accepted(before[i].item(), a.depth, a.keys),
        a.source.rest == writing::bytes_of(before) + following,
        a.source.offset + a.source.rest.len() <= u64::MAX,
        a.at(a.source.advance(writing::bytes_of(before).len() as int)).item().result is Err,
    ensures
        ({
            let failed = a.at(a.source.advance(writing::bytes_of(before).len() as int)).item();
            &&& n > before.len() ==> a.elements(n, done) == (Step {
                result: Err::<Seq<Item>, Error>(failed.result->Err_0),
                left: failed.left,
            })
            &&& following.len() > 0 && following[0] != 0xff ==> a.open_elements(done) == (Step {
                result: Err::<Seq<Item>, Error>(failed.result->Err_0),
                left: failed.left,
            })
        }),
    decreases before.len(),
{
    let s = a.source;
    reading::advance_past(s, writing::bytes_of(before), following);
    if before.len() == 0 {
        assert(s.rest.skip(0) =~= s.rest);
        assert(s.advance(0) =~= s);
    } else {
        let first = before[0];
        let more = before.subrange(1, before.len() as int);
        assert forall|i: int| 0 <= i < more.len() implies (#[trigger] more[i]).sound(s.capacity)
            && items::accepted(more[i].item(), a.depth, a.keys) by {
            assert(more[i] == before[i + 1]);
        }
        let rest = writing::bytes_of(more) + following;
        assert(s.rest =~= first.bytes() + rest);
        reading::bytes_begin(first, s.capacity);
        reading::advance_past(s, first.bytes(), rest);
        reading::item_is_read(a, first, rest);
        progress::item_progress(s, a.depth, a.keys);
        let b = a.at(s.advance(first.bytes().len() as int));
        reading::advances_add_up(
            s,
            first.bytes().len() as int,
            writing::bytes_of(more).len() as int,
        );
        lists_fail_with_their_elements(
            b,
            more,
            (if n > 0 {
                n - 1
            } else {
                0
            }) as nat,
            following,
            done.push(first.item()),
        );
    }
}

/// A list without its break is refused at its end.
pub proof fn lists_need_their_break(a: Run, elements: Seq<Writing>, done: Seq<Item>)
    requires
        forall|i: int|
            0 <= i < elements.len() ==> (#[trigger] elements[i]).sound(a.source.capacity)
                && items::accepted(elements[i].item(), a.depth, a.keys),
        a.source.rest == writing::bytes_of(elements),
        a.source.offset + a.source.rest.len() <= u64::MAX,
        !a.source.broken,
    ensures
        a.open_elements(done) == (Step {
            result: Err::<Seq<Item>, Error>(
                found(
                    a.source,
                    a.source.rest.len() as int,
                    ErrorCode::EofWhileParsingArray,
                ),
            ),
            left: a.source.advance(a.source.rest.len() as int),
        }),
    decreases elements.len(),
{
    let s = a.source;
    if elements.len() == 0 {
        assert(s.rest.skip(0) =~= s.rest);
        assert(s.advance(0) =~= s);
    } else {
        let first = elements[0];
        let more = elements.subrange(1, elements.len() as int);
        assert forall|i: int| 0 <= i < more.len() implies (#[trigger] more[i]).sound(s.capacity)
            && items::accepted(more[i].item(), a.depth, a.keys) by {
            assert(more[i] == elements[i + 1]);
        }
        let rest = writing::bytes_of(more);
        reading::bytes_begin(first, s.capacity);
        reading::advance_past(s, first.bytes(), rest);
        reading::item_is_read(a, first, rest);
        progress::item_progress(s, a.depth, a.keys);
        let b = a.at(s.advance(first.bytes().len() as int));
        reading::advances_add_up(s, first.bytes().len() as int, rest.len() as int);
        lists_need_their_break(b, more, done.push(first.item()));
    }
}

/// How a map goes on behind an entry that was read.
#[verifier::rlimit(50)]
proof fn map_goes_on(
    a: Run,
    first: (Writing, Writing),
    n: nat,
    rest: Seq<u8>,
    done: Seq<(Item, Item)>,
)
    requires
        reading::pair_accepted(a, first),
        a.source.rest == first.0.bytes() + (first.1.bytes() + rest),
        a.source.offset + a.source.rest.len() <= u64::MAX,
    ensures
        ({
            let m = first.0.bytes().len() + first.1.bytes().len();
            let b = a.at(a.source.advance(m as int));
            let more = done.push((first.0.item(), first.1.item()));
            &&& a.entries(n + 1, done) == b.entries(n, more)
            &&& a.open_entries(done) == b.open_entries(more)
            &&& b.source.rest == rest
        }),
{
    let s = a.source;
    reading::entry_is_read(a, first, rest);
    reading::bytes_begin(first.0, s.capacity);
    assert(s.rest[0] == first.0.bytes()[0]);
    progress::entry_progress(s, a.depth, a.keys);
}

/// How a map goes on behind some entries that were read.
#[verifier::rlimit(50)]
pub proof fn maps_go_on(
    a: Run,
    before: Seq<(Writing, Writing)>,
    n: nat,
    following: Seq<u8>,
    done: Seq<(Item, Item)>,
)
    requires
        forall|i: int| 0 <= i < before.len() ==> reading::pair_accepted(a, #[trigger] before[i]),
        a.source.rest == writing::bytes_of_pairs(before) + following,
        a.source.offset + a.source.rest.len() <= u64::MAX,
    ensures
        ({
            let b = a.at(a.source.advance(writing::bytes_of_pairs(before).len() as int));
            let more = done + writing::items_of_pairs(before);
            &&& a.entries(before.len() + n, done) == b.entries(n, more)
            &&& a.open_entries(done) == b.open_entries(more)
            &&& b.source.rest == following
        }),
    decreases before.len(),
{
    let s = a.source;
    reading::advance_past(s, writing::bytes_of_pairs(before), following);
    if before.len() == 0 {
        assert(s.rest.skip(0) =~= s.rest);
        assert(s.advance(0) =~= s);
        assert(done + writing::items_of_pairs(before) =~= done);
    } else {
        let first = before[0];
        let more = before.subrange(1, before.len() as int);
        let rest = writing::bytes_of_pairs(more) + following;
        assert(s.rest =~= first.0.bytes() + (first.1.bytes() + rest));
        map_goes_on(a, first, (more.len() + n) as nat, rest, done);
        let m = first.0.bytes().len() + first.1.bytes().len();
        let b = a.at(s.advance(m as int));
        assert forall|i: int| 0 <= i < more.len() implies reading::pair_accepted(
            b,
            #[trigger] more[i],
        ) by {
            assert(more[i] == before[i + 1]);
            assert(reading::pair_accepted(a, before[i + 1]));
        }
        reading::advances_add_up(s, m as int, writing::bytes_of_pairs(more).len() as int);
        let pair = (first.0.item(), first.1.item());
        assert(more.len() + n + 1 == before.len() + n);
        maps_go_on(b, more, n, following, done.push(pair));
        assert(done.push(pair) + writing::items_of_pairs(more) =~= done + writing::items_of_pairs(
            before,
        ));
    }
}

/// Whether a key that begins with `byte` is of a kind that is not accepted.
pub open spec fn is_refused(a: Run, byte: u8) -> bool {
    ||| byte <= 0x1b && !a.keys.packed
    ||| 0x60 <= byte <= 0x7f && !a.keys.named
}

/// How a map fails at the key or the value that comes next.
pub open spec fn entry_failure(a: Run) -> Option<Step<Seq<(Item, Item)>>> {
    if is_refused(a, a.source.rest[0]) {
        let e = found(a.source, 0, ErrorCode::WrongStructFormat);
        Some(Step { result: Err(e), left: a.source })
    } else {
        match a.item().result {
            Err(e) => Some(Step { result: Err(e), left: a.item().left }),
            Ok(_) => {
                let value = a.at(a.item().left).item();
                match value.result {
                    Err(e) => Some(Step { result: Err(e), left: value.left }),
                    Ok(_) => None,
                }
            },
        }
    }
}

/// A map fails at the entry that comes next.
proof fn entry_fails(a: Run, n: nat, done: Seq<(Item, Item)>)
    requires
        a.source.rest.len() > 0,
        a.source.rest[0] != 0xff,
    ensures
        entry_failure(a) matches Some(failure) ==> {
            &&& a.entries(n + 1, done) == failure
            &&& a.open_entries(done) == failure
        },
{
    if is_refused(a, a.source.rest[0]) {
        assert(a.entries(n + 1, done).result is Err);
        assert(a.open_entries(done).result is Err);
    } else {
        assert(grammar::key(a.source, a.keys) is Ok);
        assert(grammar::open_key(a.source, a.keys) == Ok::<bool, Error>(true));
        if entry_failure(a) is Some {
            assert(a.entry().result is Err);
            assert(a.entries(n + 1, done).result is Err);
            assert(a.open_entries(done).result is Err);
        }
    }
}

/// A map fails as the first of its keys and values that fails, and leaves what that leaves. A key
/// of a kind that is not accepted fails where it stands.
pub proof fn maps_fail_with_their_entries(
    a: Run,
    before: Seq<(Writing, Writing)>,
    n: nat,
    following: Seq<u8>,
    done: Seq<(Item, Item)>,
)
    requires
        forall|i: int| 0 <= i < before.len() ==> reading::pair_accepted(a, #[trigger] before[i]),
        a.source.rest == writing::bytes_of_pairs(before) + following,
        a.source.offset + a.source.rest.len() <= u64::MAX,
        following.len() > 0,
        following[0] != 0xff,
    ensures
        ({
            let b = a.at(a.source.advance(writing::bytes_of_pairs(before).len() as int));
            entry_failure(b) matches Some(failure) ==> {
                &&& a.entries(before.len() + n + 1, done) == failure
                &&& a.open_entries(done) == failure
            }
        }),
{
    maps_go_on(a, before, n + 1, following, done);
    let b = a.at(a.source.advance(writing::bytes_of_pairs(before).len() as int));
    entry_fails(b, n, done + writing::items_of_pairs(before));
    assert(before.len() + (n + 1) == before.len() + n + 1);
}

/// A map that lacks an entry fails where the entry should begin.
pub proof fn maps_need_their_entries(
    a: Run,
    before: Seq<(Writing, Writing)>,
    n: nat,
    done: Seq<(Item, Item)>,
)
    requires
        forall|i: int| 0 <= i < before.len() ==> reading::pair_accepted(a, #[trigger] before[i]),
        a.source.rest == writing::bytes_of_pairs(before),
        a.source.offset + a.source.rest.len() <= u64::MAX,
        !a.source.broken,
    ensures
        a.entries(before.len() + n + 1, done) == (Step::<Seq<(Item, Item)>> {
            result: Err(
                found(
                    a.source,
                    a.source.rest.len() as int,
                    ErrorCode::EofWhileParsingValue,
                ),
            ),
            left: a.source.advance(a.source.rest.len() as int),
        }),
{
    let none = Seq::<u8>::empty();
    assert(a.source.rest =~= writing::bytes_of_pairs(before) + none);
    maps_go_on(a, before, n + 1, none, done);
    assert(before.len() + (n + 1) == before.len() + n + 1);
    let b = a.at(a.source.advance(writing::bytes_of_pairs(before).len() as int));
    assert(b.entry().result is Err);
}

/// A map without its break is refused at its end.
pub proof fn maps_need_their_break(
    a: Run,
    entries: Seq<(Writing, Writing)>,
    done: Seq<(Item, Item)>,
)
    requires
        forall|i: int| 0 <= i < entries.len() ==> reading::pair_accepted(a, #[trigger] entries[i]),
        a.source.rest == writing::bytes_of_pairs(entries),
        a.source.offset + a.source.rest.len() <= u64::MAX,
        !a.source.broken,
    ensures
        a.open_entries(done) == (Step {
            result: Err::<Seq<(Item, Item)>, Error>(
                found(a.source, a.source.rest.len() as int, ErrorCode::EofWhileParsingMap),
            ),
            left: a.source.advance(a.source.rest.len() as int),
        }),
    decreases entries.len(),
{
    let s = a.source;
    if entries.len() == 0 {
        assert(s.rest.skip(0) =~= s.rest);
        assert(s.advance(0) =~= s);
    } else {
        let first = entries[0];
        let more = entries.subrange(1, entries.len() as int);
        let rest = writing::bytes_of_pairs(more);
        reading::entry_is_read(a, first, rest);
        reading::bytes_begin(first.0, s.capacity);
        assert(s.rest[0] == first.0.bytes()[0]);
        progress::entry_progress(s, a.depth, a.keys);
        let m = first.0.bytes().len() + first.1.bytes().len();
        let b = a.at(s.advance(m as int));
        assert forall|i: int| 0 <= i < more.len() implies reading::pair_accepted(
            b,
            #[trigger] more[i],
        ) by {
            assert(more[i] == entries[i + 1]);
            assert(reading::pair_accepted(a, entries[i + 1]));
        }
        reading::advances_add_up(s, m as int, rest.len() as int);
        maps_need_their_break(b, more, done.push((first.0.item(), first.1.item())));
    }
}

/// Lists and maps that fail inside are items that fail.
pub proof fn containers_fail_items(a: Run, w: Writing, following: Seq<u8>)
    requires
        w is List || w is OpenList || w is Mapping || w is OpenMapping,
        w.sound(a.source.capacity),
        a.source.rest == w.head_bytes() + following,
        a.source.offset + a.source.rest.len() <= u64::MAX,
        a.depth > 1,
    ensures
        ({
            let b = a.down(a.source.advance(w.head_bytes().len() as int));
            match w {
                Writing::List { elements, .. } => {
                    let inner = b.elements(elements.len(), Seq::empty());
                    inner.result matches Err(e) ==> a.item() == (Step::<Item> {
                        result: Err::<Item, Error>(e),
                        left: inner.left,
                    })
                },
                Writing::OpenList { .. } => {
                    let inner = b.open_elements(Seq::empty());
                    inner.result matches Err(e) ==> a.item() == (Step::<Item> {
                        result: Err::<Item, Error>(e),
                        left: inner.left,
                    })
                },
                Writing::Mapping { entries, .. } => {
                    let inner = b.entries(entries.len(), Seq::empty());
                    inner.result matches Err(e) ==> a.item() == (Step::<Item> {
                        result: Err::<Item, Error>(e),
                        left: inner.left,
                    })
                },
                _ => {
                    let inner = b.open_entries(Seq::empty());
                    inner.result matches Err(e) ==> a.item() == (Step::<Item> {
                        result: Err::<Item, Error>(e),
                        left: inner.left,
                    })
                },
            }
        }),
{
    reading::head_is_read(a.source, w, following);
}

} // verus!
