//! What a data item is read as, whatever stands around it.

use vstd::prelude::*;
use crate::error::{Error, ErrorCode};
use crate::grammar;
use crate::grammar::{Head, Item, Step};
use crate::laws::limits::{looser, Run};
use crate::laws::progress;
use crate::read::Source;

verus! {

/// Whether `t` is the source `s`, `shift` bytes further on and with `tail` behind it, and has no
/// less room in its scratch buffer.
pub open spec fn embeds(s: Source, t: Source, tail: Seq<u8>, shift: int) -> bool {
    &&& t.rest == s.rest + tail
    &&& t.offset == s.offset + shift
    &&& s.offset + s.rest.len() <= u64::MAX
    &&& t.offset + t.rest.len() <= u64::MAX
    &&& looser(s.capacity, t.capacity)
}

/// Whether the decoder `b` reads what the decoder `a` reads with `tail` behind it, and forbids
/// nothing that `a` allows.
pub open spec fn run_embeds(a: Run, b: Run, tail: Seq<u8>, shift: int) -> bool {
    &&& embeds(a.source, b.source, tail, shift)
    &&& a.permits_less(b)
}

/// Whether a success of the first step is one of the second.
pub open spec fn same_success<T>(x: Step<T>, y: Step<T>, tail: Seq<u8>, shift: int) -> bool {
    x.result is Ok ==> x.result == y.result && embeds(x.left, y.left, tail, shift)
}

/// Whether a success of the first step is one of the second, and, where both decoders may go down
/// equally far, so is the error of going down too far, with its place moved.
pub open spec fn same_outcome<T>(
    a: Run,
    b: Run,
    x: Step<T>,
    y: Step<T>,
    tail: Seq<u8>,
    shift: int,
) -> bool {
    &&& same_success(x, y, tail, shift)
    &&& a.depth == b.depth ==> match x.result {
        Err(e) if e.code == ErrorCode::RecursionLimitExceeded => y.result == Err::<T, Error>(
            Error { code: e.code, offset: (e.offset + shift) as u64 },
        ),
        _ => true,
    }
}

proof fn advance_embeds(s: Source, t: Source, tail: Seq<u8>, shift: int, n: int)
    requires
        embeds(s, t, tail, shift),
        0 <= n <= s.rest.len(),
    ensures
        embeds(s.advance(n), t.advance(n), tail, shift),
        s.rest.take(n) == t.rest.take(n),
        n < s.rest.len() ==> s.rest[n] == t.rest[n],
{
    assert(s.rest.take(n) =~= t.rest.take(n));
    assert(t.rest.skip(n) =~= s.rest.skip(n) + tail);
}

proof fn number_embeds(s: Source, t: Source, tail: Seq<u8>, shift: int, n: int)
    requires
        embeds(s, t, tail, shift),
        0 <= n,
    ensures
        same_success(grammar::number(s, n), grammar::number(t, n), tail, shift),
        same_success(grammar::bytes(s, n), grammar::bytes(t, n), tail, shift),
{
    if n <= s.rest.len() {
        advance_embeds(s, t, tail, shift, n);
    }
}

proof fn length_embeds(s: Source, t: Source, tail: Seq<u8>, shift: int, info: int)
    requires
        embeds(s, t, tail, shift),
    ensures
        same_success(grammar::argument(s, info), grammar::argument(t, info), tail, shift),
        same_success(grammar::length(s, info), grammar::length(t, info), tail, shift),
{
    number_embeds(s, t, tail, shift, grammar::width(info));
}

proof fn pieces_embed(s: Source, t: Source, tail: Seq<u8>, shift: int, kind: int, held: Seq<u8>)
    requires
        embeds(s, t, tail, shift),
    ensures
        same_success(
            grammar::pieces(s, kind, held),
            grammar::pieces(t, kind, held),
            tail,
            shift,
        ),
    decreases s.rest.len(),
{
    if s.rest.len() > 0 {
        let byte = s.rest[0];
        advance_embeds(s, t, tail, shift, 0);
        advance_embeds(s, t, tail, shift, 1);
        let s1 = s.advance(1);
        let t1 = t.advance(1);
        if byte != 0xff && grammar::major(byte) == kind && grammar::info(byte) <= 27 {
            length_embeds(s1, t1, tail, shift, grammar::info(byte));
            let read = grammar::length(s1, grammar::info(byte));
            let s2 = read.left;
            let t2 = grammar::length(t1, grammar::info(byte)).left;
            if let Ok(n) = read.result {
                if n <= s2.rest.len() && s2.has_room(held.len(), n) {
                    advance_embeds(s2, t2, tail, shift, n as int);
                    pieces_embed(
                        s2.advance(n as int),
                        t2.advance(n as int),
                        tail,
                        shift,
                        kind,
                        held + s2.rest.take(n as int),
                    );
                }
            }
        }
    }
}

proof fn byte_string_embeds(s: Source, t: Source, tail: Seq<u8>, shift: int, info: int)
    requires
        embeds(s, t, tail, shift),
    ensures
        same_success(grammar::byte_string(s, info), grammar::byte_string(t, info), tail, shift),
{
    if info == 31 {
        pieces_embed(s, t, tail, shift, 2, Seq::empty());
    } else {
        length_embeds(s, t, tail, shift, info);
        let read = grammar::length(s, info);
        if let Ok(n) = read.result {
            number_embeds(read.left, grammar::length(t, info).left, tail, shift, n as int);
        }
    }
}

proof fn text_string_embeds(s: Source, t: Source, tail: Seq<u8>, shift: int, info: int)
    requires
        embeds(s, t, tail, shift),
    ensures
        same_success(grammar::text_string(s, info), grammar::text_string(t, info), tail, shift),
{
    if info == 31 {
        pieces_embed(s, t, tail, shift, 3, Seq::empty());
    } else {
        length_embeds(s, t, tail, shift, info);
        let read = grammar::length(s, info);
        if let Ok(n) = read.result {
            number_embeds(read.left, grammar::length(t, info).left, tail, shift, n as int);
        }
    }
}

proof fn head_embeds(s: Source, t: Source, tail: Seq<u8>, shift: int)
    requires
        embeds(s, t, tail, shift),
    ensures
        same_success(grammar::head(s), grammar::head(t), tail, shift),
{
    if s.rest.len() > 0 {
        advance_embeds(s, t, tail, shift, 0);
        advance_embeds(s, t, tail, shift, 1);
        let s1 = s.advance(1);
        let t1 = t.advance(1);
        let major = grammar::major(s.rest[0]);
        let info = grammar::info(s.rest[0]);
        if major == 2 {
            byte_string_embeds(s1, t1, tail, shift, info);
        } else if major == 3 {
            text_string_embeds(s1, t1, tail, shift, info);
        } else if major == 6 {
            number_embeds(s1, t1, tail, shift, 1);
        } else if major == 7 {
            number_embeds(s1, t1, tail, shift, grammar::width(info));
        } else {
            length_embeds(s1, t1, tail, shift, info);
        }
    }
}

proof fn link_embeds(s: Source, t: Source, tail: Seq<u8>, shift: int)
    requires
        embeds(s, t, tail, shift),
    ensures
        same_success(grammar::link(s), grammar::link(t), tail, shift),
{
    if s.rest.len() > 0 {
        advance_embeds(s, t, tail, shift, 0);
        advance_embeds(s, t, tail, shift, 1);
        let s1 = s.advance(1);
        let t1 = t.advance(1);
        let info = grammar::info(s.rest[0]);
        length_embeds(s1, t1, tail, shift, info);
        let read = grammar::length(s1, info);
        if let Ok(n) = read.result {
            number_embeds(read.left, grammar::length(t1, info).left, tail, shift, n as int);
        }
    }
}

/// What a data item is read as does not depend on where it stands, on what stands behind it, or
/// on what more is allowed. Neither does where it is nested too deeply.
pub proof fn item_embeds(a: Run, b: Run, tail: Seq<u8>, shift: int)
    requires
        run_embeds(a, b, tail, shift),
    ensures
        same_outcome(a, b, a.item(), b.item(), tail, shift),
    decreases a.depth, 0int, 1int,
{
    head_embeds(a.source, b.source, tail, shift);
    progress::head_codes(a.source);
    progress::link_codes(grammar::head(a.source).left);
    progress::head_progress(a.source);
    let s1 = grammar::head(a.source).left;
    let t1 = grammar::head(b.source).left;
    if a.depth > 1 {
        let x = a.down(s1);
        let y = b.down(t1);
        match grammar::head(a.source).result {
            Ok(Head::Array(n)) => elements_embed(x, y, tail, shift, n, Seq::empty()),
            Ok(Head::IndefiniteArray) => open_elements_embed(x, y, tail, shift, Seq::empty()),
            Ok(Head::Mapping(n)) => entries_embed(x, y, tail, shift, n, Seq::empty()),
            Ok(Head::IndefiniteMapping) => open_entries_embed(x, y, tail, shift, Seq::empty()),
            Ok(Head::Cid) => link_embeds(s1, t1, tail, shift),
            _ => {},
        }
    }
}

proof fn elements_embed(a: Run, b: Run, tail: Seq<u8>, shift: int, n: nat, done: Seq<Item>)
    requires
        run_embeds(a, b, tail, shift),
    ensures
        same_outcome(a, b, a.elements(n, done), b.elements(n, done), tail, shift),
    decreases a.depth, n, 2int,
{
    if n > 0 {
        item_embeds(a, b, tail, shift);
        if let Ok(element) = a.item().result {
            elements_embed(
                a.at(a.item().left),
                b.at(b.item().left),
                tail,
                shift,
                (n - 1) as nat,
                done.push(element),
            );
        }
    }
}

proof fn open_elements_embed(a: Run, b: Run, tail: Seq<u8>, shift: int, done: Seq<Item>)
    requires
        run_embeds(a, b, tail, shift),
    ensures
        same_outcome(a, b, a.open_elements(done), b.open_elements(done), tail, shift),
    decreases a.depth, a.source.rest.len(), 2int,
{
    if a.source.rest.len() > 0 {
        advance_embeds(a.source, b.source, tail, shift, 0);
        advance_embeds(a.source, b.source, tail, shift, 1);
        item_embeds(a, b, tail, shift);
        progress::item_progress(a.source, a.depth, a.keys);
        progress::item_progress(b.source, b.depth, b.keys);
        if let Ok(element) = a.item().result {
            open_elements_embed(
                a.at(a.item().left),
                b.at(b.item().left),
                tail,
                shift,
                done.push(element),
            );
        }
    }
}

proof fn entry_embeds(a: Run, b: Run, tail: Seq<u8>, shift: int)
    requires
        run_embeds(a, b, tail, shift),
    ensures
        same_outcome(a, b, a.entry(), b.entry(), tail, shift),
    decreases a.depth, 0int, 2int,
{
    item_embeds(a, b, tail, shift);
    if a.item().result is Ok {
        item_embeds(a.at(a.item().left), b.at(b.item().left), tail, shift);
    }
}

proof fn entries_embed(
    a: Run,
    b: Run,
    tail: Seq<u8>,
    shift: int,
    n: nat,
    done: Seq<(Item, Item)>,
)
    requires
        run_embeds(a, b, tail, shift),
    ensures
        same_outcome(a, b, a.entries(n, done), b.entries(n, done), tail, shift),
    decreases a.depth, n, 3int,
{
    if n > 0 {
        entry_embeds(a, b, tail, shift);
        progress::entry_progress(a.source, a.depth, a.keys);
        if let Ok(pair) = a.entry().result {
            advance_embeds(a.source, b.source, tail, shift, 0);
            entries_embed(
                a.at(a.entry().left),
                b.at(b.entry().left),
                tail,
                shift,
                (n - 1) as nat,
                done.push(pair),
            );
        }
    }
}

proof fn open_entries_embed(
    a: Run,
    b: Run,
    tail: Seq<u8>,
    shift: int,
    done: Seq<(Item, Item)>,
)
    requires
        run_embeds(a, b, tail, shift),
    ensures
        same_outcome(a, b, a.open_entries(done), b.open_entries(done), tail, shift),
    decreases a.depth, a.source.rest.len(), 3int,
{
    if a.source.rest.len() > 0 {
        advance_embeds(a.source, b.source, tail, shift, 0);
        advance_embeds(a.source, b.source, tail, shift, 1);
        entry_embeds(a, b, tail, shift);
        progress::entry_progress(a.source, a.depth, a.keys);
        progress::entry_progress(b.source, b.depth, b.keys);
        if let Ok(pair) = a.entry().result {
            open_entries_embed(
                a.at(a.entry().left),
                b.at(b.entry().left),
                tail,
                shift,
                done.push(pair),
            );
        }
    }
}

} // verus!
