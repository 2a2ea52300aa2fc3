//! How far reading advances, and which errors it gives.

use vstd::prelude::*;
use crate::error::ErrorCode;
use crate::grammar;
use crate::grammar::{Head, Item, Keys};
use crate::read::Source;

verus! {

/// What is reached in two steps is reached.
pub proof fn reaches_transitive(a: Source, b: Source, c: Source)
    requires
        a.reaches(b),
        b.reaches(c),
    ensures
        a.reaches(c),
{
    assert(a.rest.skip(a.rest.len() - b.rest.len()).skip(b.rest.len() - c.rest.len())
        =~= a.rest.skip(a.rest.len() - c.rest.len()));
}

/// A source reaches itself.
pub proof fn reaches_reflexive(s: Source)
    ensures
        s.reaches(s),
{
    assert(s.rest.skip(0) =~= s.rest);
}

/// A length takes bytes from the front only.
proof fn length_progress(s: Source, info: int)
    requires
        0 <= info <= 27,
    ensures
        s.reaches(grammar::length(s, info).left),
{
    reaches_reflexive(s);
}

/// The pieces of a string take bytes from the front only.
pub proof fn pieces_progress(s: Source, kind: int, held: Seq<u8>)
    ensures
        s.reaches(grammar::pieces(s, kind, held).left),
    decreases s.rest.len(),
{
    reaches_reflexive(s);
    if s.rest.len() > 0 {
        let byte = s.rest[0];
        let s1 = s.advance(1);
        if byte != 0xff && grammar::major(byte) == kind && grammar::info(byte) <= 27 {
            length_progress(s1, grammar::info(byte));
            let read = grammar::length(s1, grammar::info(byte));
            let s2 = read.left;
            reaches_transitive(s, s1, s2);
            if let Ok(n) = read.result {
                if n <= s2.rest.len() && s2.has_room(held.len(), n) {
                    let s3 = s2.advance(n as int);
                    reaches_transitive(s, s2, s3);
                    pieces_progress(s3, kind, held + s2.rest.take(n as int));
                    reaches_transitive(
                        s,
                        s3,
                        grammar::pieces(s3, kind, held + s2.rest.take(n as int)).left,
                    );
                }
            }
        }
    }
}

/// Reading a head takes bytes from the front of the source, at least one where there is one.
pub proof fn head_progress(s: Source)
    ensures
        s.reaches(grammar::head(s).left),
        s.rest.len() > 0 ==> grammar::head(s).left.rest.len() < s.rest.len(),
        s.rest.len() == 0 ==> grammar::head(s).result is Err,
{
    reaches_reflexive(s);
    if s.rest.len() > 0 {
        let s1 = s.advance(1);
        let info = grammar::info(s.rest[0]);
        let left = grammar::head(s).left;
        reaches_reflexive(s1);
        pieces_progress(s1, 2, Seq::empty());
        pieces_progress(s1, 3, Seq::empty());
        if info <= 27 {
            length_progress(s1, info);
            let len = grammar::length(s1, info);
            if let Ok(n) = len.result {
                if n <= len.left.rest.len() {
                    reaches_transitive(s1, len.left, len.left.advance(n as int));
                }
            }
        }
        assert(s1.reaches(left));
        reaches_transitive(s, s1, left);
    }
}

/// The bytes of a CID come from the front of the source.
proof fn link_progress(s: Source)
    ensures
        s.reaches(grammar::link(s).left),
{
    reaches_reflexive(s);
    if s.rest.len() > 0 {
        let s1 = s.advance(1);
        let info = grammar::info(s.rest[0]);
        if info <= 27 {
            length_progress(s1, info);
            let len = grammar::length(s1, info);
            reaches_transitive(s, s1, len.left);
            if let Ok(n) = len.result {
                if n <= len.left.rest.len() {
                    reaches_transitive(s, len.left, len.left.advance(n as int));
                }
            }
        }
    }
}

/// Reading a data item takes bytes from the front of the source, and at least one if it succeeds.
pub proof fn item_progress(s: Source, depth: nat, keys: Keys)
    ensures
        s.reaches(grammar::item(s, depth, keys).left),
        grammar::item(s, depth, keys).result is Ok ==> grammar::item(s, depth, keys).left.rest.len()
            < s.rest.len(),
    decreases depth, 0int, 1int,
{
    head_progress(s);
    let read = grammar::head(s);
    let s1 = read.left;
    let left = grammar::item(s, depth, keys).left;
    if depth > 1 {
        let d = (depth - 1) as nat;
        match read.result {
            Ok(Head::Array(n)) => {
                elements_progress(s1, n, d, keys, Seq::empty());
                reaches_transitive(s, s1, left);
            },
            Ok(Head::IndefiniteArray) => {
                open_elements_progress(s1, d, keys, Seq::empty());
                reaches_transitive(s, s1, left);
            },
            Ok(Head::Mapping(n)) => {
                entries_progress(s1, n, d, keys, Seq::empty());
                reaches_transitive(s, s1, left);
            },
            Ok(Head::IndefiniteMapping) => {
                open_entries_progress(s1, d, keys, Seq::empty());
                reaches_transitive(s, s1, left);
            },
            Ok(Head::Cid) => {
                link_progress(s1);
                reaches_transitive(s, s1, left);
            },
            _ => {},
        }
    }
}

proof fn elements_progress(s: Source, n: nat, depth: nat, keys: Keys, done: Seq<Item>)
    ensures
        s.reaches(grammar::elements(s, n, depth, keys, done).left),
    decreases depth, n, 2int,
{
    reaches_reflexive(s);
    if n > 0 {
        item_progress(s, depth, keys);
        let read = grammar::item(s, depth, keys);
        if let Ok(element) = read.result {
            elements_progress(read.left, (n - 1) as nat, depth, keys, done.push(element));
            reaches_transitive(s, read.left, grammar::elements(s, n, depth, keys, done).left);
        }
    }
}

proof fn open_elements_progress(s: Source, depth: nat, keys: Keys, done: Seq<Item>)
    ensures
        s.reaches(grammar::open_elements(s, depth, keys, done).left),
    decreases depth, s.rest.len(), 2int,
{
    reaches_reflexive(s);
    if s.rest.len() > 0 && s.rest[0] != 0xff {
        item_progress(s, depth, keys);
        let read = grammar::item(s, depth, keys);
        if let Ok(element) = read.result {
            open_elements_progress(read.left, depth, keys, done.push(element));
            reaches_transitive(s, read.left, grammar::open_elements(s, depth, keys, done).left);
        }
    }
}

/// Reading an entry takes bytes from the front of the source.
pub proof fn entry_progress(s: Source, depth: nat, keys: Keys)
    ensures
        s.reaches(grammar::entry(s, depth, keys).left),
        grammar::entry(s, depth, keys).result is Ok ==> grammar::entry(
            s,
            depth,
            keys,
        ).left.rest.len() < s.rest.len(),
    decreases depth, 0int, 2int,
{
    item_progress(s, depth, keys);
    let key = grammar::item(s, depth, keys);
    if key.result is Ok {
        item_progress(key.left, depth, keys);
        reaches_transitive(s, key.left, grammar::entry(s, depth, keys).left);
    }
}

proof fn entries_progress(s: Source, n: nat, depth: nat, keys: Keys, done: Seq<(Item, Item)>)
    ensures
        s.reaches(grammar::entries(s, n, depth, keys, done).left),
    decreases depth, n, 3int,
{
    reaches_reflexive(s);
    if n > 0 {
        entry_progress(s, depth, keys);
        let read = grammar::entry(s, depth, keys);
        if let Ok(pair) = read.result {
            entries_progress(read.left, (n - 1) as nat, depth, keys, done.push(pair));
            reaches_transitive(
                s,
                read.left,
                grammar::entries(read.left, (n - 1) as nat, depth, keys, done.push(pair)).left,
            );
        }
    }
}

proof fn open_entries_progress(s: Source, depth: nat, keys: Keys, done: Seq<(Item, Item)>)
    ensures
        s.reaches(grammar::open_entries(s, depth, keys, done).left),
    decreases depth, s.rest.len(), 3int,
{
    reaches_reflexive(s);
    if s.rest.len() > 0 && s.rest[0] != 0xff {
        entry_progress(s, depth, keys);
        let read = grammar::entry(s, depth, keys);
        if let Ok(pair) = read.result {
            open_entries_progress(read.left, depth, keys, done.push(pair));
            reaches_transitive(
                s,
                read.left,
                grammar::open_entries(read.left, depth, keys, done.push(pair)).left,
            );
        }
    }
}

/// The error codes of reading the pieces of a string.
proof fn pieces_codes(s: Source, kind: int, held: Seq<u8>)
    ensures
        grammar::pieces(s, kind, held).result matches Err(e) ==> e.code
            != ErrorCode::RecursionLimitExceeded,
    decreases s.rest.len(),
{
    if s.rest.len() > 0 {
        let byte = s.rest[0];
        let s1 = s.advance(1);
        if byte != 0xff && grammar::major(byte) == kind && grammar::info(byte) <= 27 {
            let read = grammar::length(s1, grammar::info(byte));
            let s2 = read.left;
            if let Ok(n) = read.result {
                if n <= s2.rest.len() && s2.has_room(held.len(), n) {
                    pieces_codes(s2.advance(n as int), kind, held + s2.rest.take(n as int));
                }
            }
        }
    }
}

/// A head on its own is never nested too deeply.
pub proof fn head_codes(s: Source)
    ensures
        grammar::head(s).result matches Err(e) ==> e.code != ErrorCode::RecursionLimitExceeded,
{
    pieces_codes(s.advance(1), 2, Seq::empty());
    pieces_codes(s.advance(1), 3, Seq::empty());
}

/// The bytes of a CID are never nested too deeply.
pub proof fn link_codes(s: Source)
    ensures
        grammar::link(s).result matches Err(e) ==> e.code != ErrorCode::RecursionLimitExceeded,
{
}

} // verus!
