//! What the pieces of an indefinite string are joined to.

use vstd::prelude::*;
use crate::de;
use crate::error::Error;
use crate::grammar;
use crate::grammar::{Head, Step};
use crate::read::Source;

verus! {

/// Whether bytes are a string of the given major type, written with its length, and nothing more.
pub open spec fn is_piece(bytes: Seq<u8>, kind: int, content: Seq<u8>) -> bool {
    &&& bytes.len() > 0
    &&& grammar::major(bytes[0]) == kind
    &&& grammar::info(bytes[0]) <= 27
    &&& {
        let read = grammar::length(
            de::slice_source(bytes).advance(1),
            grammar::info(bytes[0]),
        );
        &&& read.result == Ok::<nat, Error>(content.len())
        &&& read.left.rest == content
    }
}

/// Whether bytes are pieces with those contents, one after the other.
pub open spec fn are_pieces(pieces: Seq<Seq<u8>>, kind: int, contents: Seq<Seq<u8>>) -> bool {
    &&& pieces.len() == contents.len()
    &&& forall|i: int|
        0 <= i < pieces.len() ==> is_piece(#[trigger] pieces[i], kind, contents[i])
}

/// The length of a piece is read alike, whatever stands before and behind the piece.
proof fn piece_length(s: Source, piece: Seq<u8>, kind: int, content: Seq<u8>, following: Seq<u8>)
    requires
        is_piece(piece, kind, content),
        s.rest == piece + following,
    ensures
        ({
            let read = grammar::length(s.advance(1), grammar::info(piece[0]));
            &&& s.rest[0] == piece[0]
            &&& read.result == Ok::<nat, Error>(content.len())
            &&& read.left.advance(content.len() as int) == s.advance(piece.len() as int)
            &&& read.left.rest.len() >= content.len()
            &&& read.left.rest.take(content.len() as int) == content
            &&& read.left.capacity == s.capacity
            &&& s.advance(piece.len() as int).rest == following
        }),
{
    let info = grammar::info(piece[0]);
    let width = if info < 24 {
        0
    } else {
        grammar::width(info)
    };
    let s1 = s.advance(1);
    let p1 = de::slice_source(piece).advance(1);
    assert(p1.rest.len() == piece.len() - 1);
    assert(s1.rest =~= p1.rest + following);
    assert(width <= p1.rest.len());
    assert(s1.rest.take(width) =~= p1.rest.take(width));
    assert(p1.rest.skip(width).len() == content.len());
    assert(p1.rest.skip(0) =~= p1.rest);
    let left = grammar::length(s1, info).left;
    assert(s1.rest.skip(0) =~= s1.rest);
    assert(left.rest =~= content + following);
    assert(left.rest.take(content.len() as int) =~= content);
    assert(s.advance(piece.len() as int).rest =~= following);
    assert(left.rest.skip(content.len() as int) =~= following);
}

/// However the content of an indefinite string is cut into pieces, reading them gives the content,
/// joined, and leaves what follows the break.
pub proof fn pieces_are_joined(
    s: Source,
    kind: int,
    held: Seq<u8>,
    pieces: Seq<Seq<u8>>,
    contents: Seq<Seq<u8>>,
    following: Seq<u8>,
)
    requires
        are_pieces(pieces, kind, contents),
        s.rest == pieces.flatten() + (seq![0xffu8] + following),
        s.has_room(held.len(), contents.flatten().len()),
    ensures
        grammar::pieces(s, kind, held) == (Step {
            result: Ok(held + contents.flatten()),
            left: s.advance(pieces.flatten().len() + 1int),
        }),
        s.advance(pieces.flatten().len() + 1int).rest == following,
    decreases pieces.len(),
{
    assert(s.advance(pieces.flatten().len() + 1int).rest =~= following);
    if pieces.len() == 0 {
        assert(s.rest[0] == 0xff);
        assert(held + contents.flatten() =~= held);
    } else {
        let piece = pieces[0];
        let content = contents[0];
        let more = pieces.drop_first();
        let rest = more.flatten() + (seq![0xffu8] + following);
        assert(s.rest =~= piece + rest);
        piece_length(s, piece, kind, content, rest);
        let after = s.advance(piece.len() as int);
        let joined = held + content;
        assert(contents.flatten() == content + contents.drop_first().flatten());
        assert(are_pieces(more, kind, contents.drop_first()));
        pieces_are_joined(after, kind, joined, more, contents.drop_first(), following);
        assert(joined + contents.drop_first().flatten() =~= held + contents.flatten());
        let end = s.advance(pieces.flatten().len() + 1int);
        assert(after.advance(more.flatten().len() + 1int) =~= end);
    }
}

/// An indefinite byte string is read as its content, however that is cut into pieces.
pub proof fn byte_strings_are_joined(
    s: Source,
    pieces: Seq<Seq<u8>>,
    contents: Seq<Seq<u8>>,
    following: Seq<u8>,
)
    requires
        are_pieces(pieces, 2, contents),
        s.rest == seq![0x5fu8] + (pieces.flatten() + (seq![0xffu8] + following)),
        s.has_room(0, contents.flatten().len()),
    ensures
        grammar::head(s) == (Step {
            result: Ok(Head::Bytes(contents.flatten())),
            left: s.advance(pieces.flatten().len() + 2int),
        }),
        s.advance(pieces.flatten().len() + 2int).rest == following,
{
    let s1 = s.advance(1);
    assert(s.rest[0] == 0x5f);
    assert(s1.rest =~= pieces.flatten() + (seq![0xffu8] + following));
    pieces_are_joined(s1, 2, Seq::empty(), pieces, contents, following);
    assert(Seq::<u8>::empty() + contents.flatten() =~= contents.flatten());
    assert(s1.advance(pieces.flatten().len() + 1int) =~= s.advance(pieces.flatten().len() + 2int));
}

/// An indefinite text string is read as its content, however that is cut into pieces, where the
/// content is valid as a whole.
pub proof fn text_strings_are_joined(
    s: Source,
    pieces: Seq<Seq<u8>>,
    contents: Seq<Seq<u8>>,
    following: Seq<u8>,
)
    requires
        are_pieces(pieces, 3, contents),
        s.rest == seq![0x7fu8] + (pieces.flatten() + (seq![0xffu8] + following)),
        s.has_room(0, contents.flatten().len()),
        vstd::utf8::valid_utf8(contents.flatten()),
    ensures
        grammar::head(s) == (Step {
            result: Ok(Head::Str(vstd::utf8::decode_utf8(contents.flatten()))),
            left: s.advance(pieces.flatten().len() + 2int),
        }),
        s.advance(pieces.flatten().len() + 2int).rest == following,
{
    let s1 = s.advance(1);
    assert(s.rest[0] == 0x7f);
    assert(s1.rest =~= pieces.flatten() + (seq![0xffu8] + following));
    pieces_are_joined(s1, 3, Seq::empty(), pieces, contents, following);
    assert(Seq::<u8>::empty() + contents.flatten() =~= contents.flatten());
    assert(s1.advance(pieces.flatten().len() + 1int) =~= s.advance(pieces.flatten().len() + 2int));
}

} // verus!
