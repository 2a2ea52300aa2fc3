//! Where the errors of a decoder point to.

use vstd::prelude::*;
use crate::error::{Error, ErrorCode, Result};
use crate::grammar;
use crate::grammar::{Head, Item};
use crate::laws::limits::Run;
use crate::laws::progress;
use crate::read::Source;

verus! {

/// Whether an error points to a place in the source or to its end, unless it says that the
/// source failed, which has no place.
pub open spec fn points_into(s: Source, e: Error) -> bool {
    ||| s.broken && e == (Error { code: ErrorCode::Io, offset: 0 })
    ||| s.offset <= e.offset <= s.offset + s.rest.len()
}

/// Whether the error of a result, if it is one, points into the source.
pub open spec fn well_placed<T>(s: Source, result: Result<T>) -> bool {
    result matches Err(e) ==> points_into(s, e)
}

/// Whether every place in the source can be named.
pub open spec fn nameable(s: Source) -> bool {
    s.offset + s.rest.len() <= u64::MAX
}

/// There is a place up to which bytes are valid.
proof fn valid_up_to_exists(bytes: Seq<u8>, limit: nat) -> (n: nat)
    requires
        limit <= bytes.len(),
        forall|m: int|
            limit < m <= bytes.len() ==> !vstd::utf8::valid_utf8(#[trigger] bytes.take(m)),
    ensures
        grammar::is_valid_up_to(bytes, n),
    decreases limit,
{
    if limit == 0 || vstd::utf8::valid_utf8(bytes.take(limit as int)) {
        limit
    } else {
        valid_up_to_exists(bytes, (limit - 1) as nat)
    }
}

/// An error in a text lies among the bytes of the text.
proof fn text_is_well_placed(bytes: Seq<u8>, end: int)
    requires
        bytes.len() <= end <= u64::MAX,
    ensures
        grammar::text(bytes, end) matches Err(e) ==> end - bytes.len() <= e.offset <= end,
{
    let n = valid_up_to_exists(bytes, bytes.len());
    grammar::lemma_valid_up_to(bytes, n);
}

proof fn pieces_are_well_placed(s: Source, kind: int, held: Seq<u8>)
    requires
        nameable(s),
    ensures
        well_placed(s, grammar::pieces(s, kind, held).result),
        grammar::pieces(s, kind, held).result matches Ok(b) ==> b.len() + grammar::pieces(
            s,
            kind,
            held,
        ).left.rest.len() <= held.len() + s.rest.len(),
    decreases s.rest.len(),
{
    if s.rest.len() > 0 {
        let byte = s.rest[0];
        let s1 = s.advance(1);
        if byte != 0xff && grammar::major(byte) == kind && grammar::info(byte) <= 27 {
            let read = grammar::length(s1, grammar::info(byte));
            let s2 = read.left;
            if let Ok(n) = read.result {
                if n <= s2.rest.len() && s2.has_room(held.len(), n) {
                    pieces_are_well_placed(
                        s2.advance(n as int),
                        kind,
                        held + s2.rest.take(n as int),
                    );
                }
            }
        }
    }
}

proof fn text_string_is_well_placed(s: Source, info: int)
    requires
        nameable(s),
        0 <= info <= 27 || info == 31,
    ensures
        well_placed(s, grammar::text_string(s, info).result),
{
    pieces_are_well_placed(s, 3, Seq::empty());
    progress::pieces_progress(s, 3, Seq::empty());
    let read = grammar::text_bytes(s, info);
    if let Ok(b) = read.result {
        text_is_well_placed(b, read.left.offset as int);
    }
}

proof fn head_is_well_placed(s: Source)
    requires
        nameable(s),
    ensures
        well_placed(s, grammar::head(s).result),
{
    if s.rest.len() > 0 {
        let s1 = s.advance(1);
        let info = grammar::info(s.rest[0]);
        if grammar::major(s.rest[0]) == 2 {
            pieces_are_well_placed(s1, 2, Seq::empty());
        } else if grammar::major(s.rest[0]) == 3 && grammar::assigned(3, info) {
            text_string_is_well_placed(s1, info);
        }
    }
}

/// An error that comes of reading an item points into the source.
pub proof fn item_is_well_placed(a: Run)
    requires
        nameable(a.source),
    ensures
        well_placed(a.source, a.item().result),
    decreases a.depth, 0int, 1int,
{
    head_is_well_placed(a.source);
    progress::head_progress(a.source);
    let s1 = grammar::head(a.source).left;
    if a.depth > 1 {
        let x = a.down(s1);
        match grammar::head(a.source).result {
            Ok(Head::Array(n)) => elements_are_well_placed(x, n, Seq::empty()),
            Ok(Head::IndefiniteArray) => open_elements_are_well_placed(x, Seq::empty()),
            Ok(Head::Mapping(n)) => entries_are_well_placed(x, n, Seq::empty()),
            Ok(Head::IndefiniteMapping) => open_entries_are_well_placed(x, Seq::empty()),
            _ => {},
        }
    }
}

proof fn elements_are_well_placed(a: Run, n: nat, done: Seq<Item>)
    requires
        nameable(a.source),
    ensures
        well_placed(a.source, a.elements(n, done).result),
    decreases a.depth, n, 2int,
{
    if n > 0 {
        item_is_well_placed(a);
        progress::item_progress(a.source, a.depth, a.keys);
        if let Ok(element) = a.item().result {
            elements_are_well_placed(a.at(a.item().left), (n - 1) as nat, done.push(element));
        }
    }
}

proof fn open_elements_are_well_placed(a: Run, done: Seq<Item>)
    requires
        nameable(a.source),
    ensures
        well_placed(a.source, a.open_elements(done).result),
    decreases a.depth, a.source.rest.len(), 2int,
{
    if a.source.rest.len() > 0 {
        item_is_well_placed(a);
        progress::item_progress(a.source, a.depth, a.keys);
        if let Ok(element) = a.item().result {
            open_elements_are_well_placed(a.at(a.item().left), done.push(element));
        }
    }
}

proof fn entry_is_well_placed(a: Run)
    requires
        nameable(a.source),
    ensures
        well_placed(a.source, a.entry().result),
    decreases a.depth, 0int, 2int,
{
    item_is_well_placed(a);
    progress::item_progress(a.source, a.depth, a.keys);
    if a.item().result is Ok {
        item_is_well_placed(a.at(a.item().left));
    }
}

proof fn entries_are_well_placed(a: Run, n: nat, done: Seq<(Item, Item)>)
    requires
        nameable(a.source),
    ensures
        well_placed(a.source, a.entries(n, done).result),
    decreases a.depth, n, 3int,
{
    if n > 0 {
        entry_is_well_placed(a);
        progress::entry_progress(a.source, a.depth, a.keys);
        if let Ok(pair) = a.entry().result {
            entries_are_well_placed(a.at(a.entry().left), (n - 1) as nat, done.push(pair));
        }
    }
}

proof fn open_entries_are_well_placed(a: Run, done: Seq<(Item, Item)>)
    requires
        nameable(a.source),
    ensures
        well_placed(a.source, a.open_entries(done).result),
    decreases a.depth, a.source.rest.len(), 3int,
{
    if a.source.rest.len() > 0 {
        entry_is_well_placed(a);
        progress::entry_progress(a.source, a.depth, a.keys);
        if let Ok(pair) = a.entry().result {
            open_entries_are_well_placed(a.at(a.entry().left), done.push(pair));
        }
    }
}

} // verus!
