//! What a decoder that forbids more than another makes of the same input.

use vstd::prelude::*;
use crate::error::ErrorCode;
use crate::grammar;
use crate::grammar::{Head, Item, Keys, Step};
use crate::laws::progress;
use crate::read::Source;

verus! {

/// A decoder that stands at a source: what it reads, how deeply, and which keys it accepts.
pub struct Run {
    pub source: Source,
    pub depth: nat,
    pub keys: Keys,
}

impl Run {
    /// The same decoder at another source.
    pub open spec fn at(self, source: Source) -> Run {
        Run { source, ..self }
    }

    /// The same decoder one level of nesting down.
    pub open spec fn down(self, source: Source) -> Run {
        Run { source, depth: (self.depth - 1) as nat, ..self }
    }

    pub open spec fn item(self) -> Step<Item> {
        grammar::item(self.source, self.depth, self.keys)
    }

    pub open spec fn entry(self) -> Step<(Item, Item)> {
        grammar::entry(self.source, self.depth, self.keys)
    }

    pub open spec fn elements(self, n: nat, done: Seq<Item>) -> Step<Seq<Item>> {
        grammar::elements(self.source, n, self.depth, self.keys, done)
    }

    pub open spec fn open_elements(self, done: Seq<Item>) -> Step<Seq<Item>> {
        grammar::open_elements(self.source, self.depth, self.keys, done)
    }

    pub open spec fn entries(self, n: nat, done: Seq<(Item, Item)>) -> Step<Seq<(Item, Item)>> {
        grammar::entries(self.source, n, self.depth, self.keys, done)
    }

    pub open spec fn open_entries(self, done: Seq<(Item, Item)>) -> Step<Seq<(Item, Item)>> {
        grammar::open_entries(self.source, self.depth, self.keys, done)
    }

    /// Whether `other` reads the same input, and forbids nothing that this decoder allows.
    pub open spec fn within(self, other: Run) -> bool {
        &&& alike(self.source, other.source)
        &&& self.permits_less(other)
    }

    /// Whether `other` allows the nesting and the keys that this decoder allows.
    pub open spec fn permits_less(self, other: Run) -> bool {
        &&& self.depth <= other.depth
        &&& self.keys.named ==> other.keys.named
        &&& self.keys.packed ==> other.keys.packed
    }

    /// Whether an error of this decoder stems from what it forbids and `other` allows, where the
    /// scratch buffer holds `held` bytes.
    pub open spec fn forbids(self, other: Run, held: nat, code: ErrorCode) -> bool {
        ||| {
            &&& code == ErrorCode::ScratchTooSmall
            &&& self.source.capacity != other.source.capacity
            &&& self.source.capacity matches Some(c) && c < held + self.source.rest.len()
        }
        ||| code == ErrorCode::RecursionLimitExceeded && self.depth < other.depth
        ||| code == ErrorCode::WrongStructFormat && self.keys != other.keys
    }
}

/// Whether two sources hold the same bytes, and the second has no less room in its scratch buffer.
pub open spec fn alike(s: Source, t: Source) -> bool {
    &&& s.rest == t.rest
    &&& s.offset == t.offset
    &&& s.broken == t.broken
    &&& looser(s.capacity, t.capacity)
}

/// Whether the second limit on a scratch buffer lets it hold what the first does.
pub open spec fn looser(limit: Option<nat>, other: Option<nat>) -> bool {
    match (limit, other) {
        (_, None) => true,
        (Some(c), Some(d)) => c <= d,
        (None, Some(_)) => false,
    }
}

/// Whether a step of the decoder `a` is that of the decoder `b`, unless `a` forbids what `b`
/// allows.
pub open spec fn same_or_forbidden<T>(a: Run, b: Run, held: nat, x: Step<T>, y: Step<T>) -> bool {
    ||| x.result matches Err(e) && a.forbids(b, held, e.code)
    ||| x.result == y.result && alike(x.left, y.left)
}

proof fn pieces_within(a: Run, b: Run, kind: int, held: Seq<u8>)
    requires
        a.within(b),
    ensures
        same_or_forbidden(
            a,
            b,
            held.len(),
            grammar::pieces(a.source, kind, held),
            grammar::pieces(b.source, kind, held),
        ),
    decreases a.source.rest.len(),
{
    let s = a.source;
    let t = b.source;
    if s.rest.len() > 0 {
        let byte = s.rest[0];
        let s1 = s.advance(1);
        let t1 = t.advance(1);
        if byte != 0xff && grammar::major(byte) == kind && grammar::info(byte) <= 27 {
            let read = grammar::length(s1, grammar::info(byte));
            let s2 = read.left;
            let t2 = grammar::length(t1, grammar::info(byte)).left;
            if let Ok(n) = read.result {
                if n <= s2.rest.len() && s2.has_room(held.len(), n) {
                    let more = held + s2.rest.take(n as int);
                    let s3 = s2.advance(n as int);
                    let t3 = t2.advance(n as int);
                    pieces_within(a.at(s3), b.at(t3), kind, more);
                }
            }
        }
    }
}

proof fn byte_string_within(a: Run, b: Run, info: int)
    requires
        a.within(b),
    ensures
        same_or_forbidden(
            a,
            b,
            0,
            grammar::byte_string(a.source, info),
            grammar::byte_string(b.source, info),
        ),
{
    pieces_within(a, b, 2, Seq::empty());
}

proof fn text_string_within(a: Run, b: Run, info: int)
    requires
        a.within(b),
    ensures
        same_or_forbidden(
            a,
            b,
            0,
            grammar::text_string(a.source, info),
            grammar::text_string(b.source, info),
        ),
{
    pieces_within(a, b, 3, Seq::empty());
}

proof fn head_within(a: Run, b: Run)
    requires
        a.within(b),
    ensures
        same_or_forbidden(a, b, 0, grammar::head(a.source), grammar::head(b.source)),
{
    if a.source.rest.len() > 0 {
        let x = a.at(a.source.advance(1));
        let y = b.at(b.source.advance(1));
        let major = grammar::major(a.source.rest[0]);
        let info = grammar::info(a.source.rest[0]);
        if major == 2 {
            byte_string_within(x, y, info);
        } else if major == 3 {
            text_string_within(x, y, info);
        }
    }
}

/// What a decoder that forbids more reads is what the other reads, or an error that says what is
/// forbidden.
pub proof fn item_within(a: Run, b: Run)
    requires
        a.within(b),
    ensures
        same_or_forbidden(a, b, 0, a.item(), b.item()),
    decreases a.depth, 0int, 1int,
{
    head_within(a, b);
    let s1 = grammar::head(a.source).left;
    let t1 = grammar::head(b.source).left;
    progress::head_progress(a.source);
    progress::head_progress(b.source);
    if a.depth > 1 && alike(s1, t1) {
        let x = a.down(s1);
        let y = b.down(t1);
        match grammar::head(a.source).result {
            Ok(Head::Array(n)) => elements_within(x, y, n, Seq::empty()),
            Ok(Head::IndefiniteArray) => open_elements_within(x, y, Seq::empty()),
            Ok(Head::Mapping(n)) => entries_within(x, y, n, Seq::empty()),
            Ok(Head::IndefiniteMapping) => open_entries_within(x, y, Seq::empty()),
            _ => {},
        }
    }
}

proof fn elements_within(a: Run, b: Run, n: nat, done: Seq<Item>)
    requires
        a.within(b),
    ensures
        same_or_forbidden(a, b, 0, a.elements(n, done), b.elements(n, done)),
    decreases a.depth, n, 2int,
{
    if n > 0 {
        item_within(a, b);
        progress::item_progress(a.source, a.depth, a.keys);
        if let Ok(element) = a.item().result {
            elements_within(
                a.at(a.item().left),
                b.at(b.item().left),
                (n - 1) as nat,
                done.push(element),
            );
            progress::item_progress(b.source, b.depth, b.keys);
        }
    }
}

proof fn open_elements_within(a: Run, b: Run, done: Seq<Item>)
    requires
        a.within(b),
    ensures
        same_or_forbidden(a, b, 0, a.open_elements(done), b.open_elements(done)),
    decreases a.depth, a.source.rest.len(), 2int,
{
    if a.source.rest.len() > 0 && a.source.rest[0] != 0xff {
        item_within(a, b);
        progress::item_progress(a.source, a.depth, a.keys);
        progress::item_progress(b.source, b.depth, b.keys);
        if let Ok(element) = a.item().result {
            open_elements_within(a.at(a.item().left), b.at(b.item().left), done.push(element));
        }
    }
}

proof fn entry_within(a: Run, b: Run)
    requires
        a.within(b),
    ensures
        same_or_forbidden(a, b, 0, a.entry(), b.entry()),
    decreases a.depth, 0int, 2int,
{
    item_within(a, b);
    progress::item_progress(a.source, a.depth, a.keys);
    progress::item_progress(b.source, b.depth, b.keys);
    if a.item().result is Ok {
        item_within(a.at(a.item().left), b.at(b.item().left));
    }
}

proof fn entries_within(a: Run, b: Run, n: nat, done: Seq<(Item, Item)>)
    requires
        a.within(b),
    ensures
        same_or_forbidden(a, b, 0, a.entries(n, done), b.entries(n, done)),
    decreases a.depth, n, 3int,
{
    if n > 0 {
        entry_within(a, b);
        progress::entry_progress(a.source, a.depth, a.keys);
        progress::entry_progress(b.source, b.depth, b.keys);
        if let Ok(pair) = a.entry().result {
            entries_within(
                a.at(a.entry().left),
                b.at(b.entry().left),
                (n - 1) as nat,
                done.push(pair),
            );
        }
    }
}

proof fn open_entries_within(a: Run, b: Run, done: Seq<(Item, Item)>)
    requires
        a.within(b),
    ensures
        same_or_forbidden(a, b, 0, a.open_entries(done), b.open_entries(done)),
    decreases a.depth, a.source.rest.len(), 3int,
{
    if a.source.rest.len() > 0 && a.source.rest[0] != 0xff {
        entry_within(a, b);
        progress::entry_progress(a.source, a.depth, a.keys);
        progress::entry_progress(b.source, b.depth, b.keys);
        if let Ok(pair) = a.entry().result {
            open_entries_within(a.at(a.entry().left), b.at(b.entry().left), done.push(pair));
        }
    }
}

} // verus!
