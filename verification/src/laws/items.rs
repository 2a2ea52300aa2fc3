//! What items a decoder gives.

use vstd::prelude::*;
use crate::error::Error;
use crate::grammar;
use crate::grammar::{Head, Item, Keys};
use crate::laws::limits::Run;
use crate::laws::progress;
use crate::read::Source;

verus! {

/// Whether a key of a map is of a kind that is accepted.
pub open spec fn key_accepted(key: Item, keys: Keys) -> bool {
    match key {
        Item::Str(_) => keys.named,
        Item::Integer(n) => n >= 0 ==> keys.packed,
        _ => true,
    }
}

/// Whether an item is nested less than `depth` levels deep, has no keys but those that are
/// accepted, and no integers but those that an initial byte and its argument can express.
pub open spec fn accepted(item: Item, depth: nat, keys: Keys) -> bool
    decreases depth,
{
    match item {
        Item::Integer(n) => -0x1_0000_0000_0000_0000 <= n <= 0xffff_ffff_ffff_ffff,
        Item::List(items) => depth > 1 && forall|i: int|
            0 <= i < items.len() ==> accepted(#[trigger] items[i], (depth - 1) as nat, keys),
        Item::Mapping(pairs) => depth > 1 && forall|i: int|
            0 <= i < pairs.len() ==> {
                let (key, value) = #[trigger] pairs[i];
                &&& key_accepted(key, keys)
                &&& accepted(key, (depth - 1) as nat, keys)
                &&& accepted(value, (depth - 1) as nat, keys)
            },
        Item::Link(_) => depth > 1,
        _ => true,
    }
}

/// The elements of a list that is accepted are accepted one level down.
pub proof fn elements_of_accepted(items: Seq<Item>, depth: nat, keys: Keys, i: int)
    requires
        accepted(Item::List(items), depth, keys),
        0 <= i < items.len(),
    ensures
        depth > 1,
        accepted(items[i], (depth - 1) as nat, keys),
{
    let list = Item::List(items);
    assert(accepted(list->List_0[i], (depth - 1) as nat, keys));
}

/// Whether all elements are accepted.
spec fn all_accepted(items: Seq<Item>, depth: nat, keys: Keys) -> bool {
    forall|i: int| 0 <= i < items.len() ==> accepted(#[trigger] items[i], depth, keys)
}

/// Whether a key and a value are accepted.
spec fn pair_accepted(pair: (Item, Item), depth: nat, keys: Keys) -> bool {
    &&& key_accepted(pair.0, keys)
    &&& accepted(pair.0, depth, keys)
    &&& accepted(pair.1, depth, keys)
}

/// Whether all entries are accepted.
spec fn all_pairs_accepted(pairs: Seq<(Item, Item)>, depth: nat, keys: Keys) -> bool {
    forall|i: int| 0 <= i < pairs.len() ==> pair_accepted(#[trigger] pairs[i], depth, keys)
}

/// How large the numbers are that arguments of each width can be.
pub proof fn numbers_are_bounded(s: Source)
    ensures
        grammar::number(s, 1).result matches Ok(n) ==> n <= u8::MAX,
        grammar::number(s, 2).result matches Ok(n) ==> n <= u16::MAX,
        grammar::number(s, 4).result matches Ok(n) ==> n <= u32::MAX,
        grammar::number(s, 8).result matches Ok(n) ==> n <= u64::MAX,
{
    reveal_with_fuel(grammar::big_endian, 9);
}

/// Negative integers are negative.
proof fn negative_is_negative(s: Source, info: int)
    requires
        0 <= info <= 27,
    ensures
        match grammar::negative(s, info).result {
            Ok(Head::I8(n)) => n < 0,
            Ok(Head::I16(n)) => n < 0,
            Ok(Head::I32(n)) => n < 0,
            Ok(Head::I64(n)) => n < 0,
            Ok(Head::I128(n)) => -0x1_0000_0000_0000_0000 <= n < 0,
            Ok(_) => false,
            Err(_) => true,
        },
{
    numbers_are_bounded(s);
}

/// The integers that take more than 64 bits are negative and take one bit more.
proof fn wide_integers_are_bounded(s: Source)
    ensures
        grammar::head(s).result matches Ok(Head::I128(n)) ==> -0x1_0000_0000_0000_0000 <= n < 0,
{
    if s.rest.len() > 0 && grammar::major(s.rest[0]) == 1 && grammar::info(s.rest[0]) <= 27 {
        negative_is_negative(s.advance(1), grammar::info(s.rest[0]));
    }
}

/// What a key begins with tells which kind of key it is.
proof fn key_kind(a: Run)
    requires
        grammar::key(a.source, a.keys) is Ok,
        a.source.rest.len() > 0,
    ensures
        a.item().result matches Ok(key) ==> key_accepted(key, a.keys),
{
    let byte = a.source.rest[0];
    let major = grammar::major(byte);
    if major == 1 {
        if grammar::info(byte) <= 27 {
            negative_is_negative(a.source.advance(1), grammar::info(byte));
        }
    } else if major == 0 {
        assert(byte < 0x20);
    } else if major == 3 {
        assert(0x60 <= byte <= 0x7f);
    } else {
        assert(match grammar::head(a.source).result {
            Ok(Head::Bytes(_)) => true,
            Ok(Head::Array(_)) => true,
            Ok(Head::IndefiniteArray) => true,
            Ok(Head::Mapping(_)) => true,
            Ok(Head::IndefiniteMapping) => true,
            Ok(Head::Cid) => true,
            Ok(Head::Bool(_)) => true,
            Ok(Head::Null) => true,
            Ok(Head::F16(_)) => true,
            Ok(Head::F32(_)) => true,
            Ok(Head::F64(_)) => true,
            Ok(_) => false,
            Err(_) => true,
        });
    }
}

/// What a decoder reads is nested no deeper than allowed and has no keys but accepted ones.
pub proof fn item_is_accepted(a: Run)
    ensures
        a.item().result matches Ok(item) ==> accepted(item, a.depth, a.keys),
    decreases a.depth, 0int, 1int,
{
    let s1 = grammar::head(a.source).left;
    wide_integers_are_bounded(a.source);
    if a.depth > 1 {
        let x = a.down(s1);
        match grammar::head(a.source).result {
            Ok(Head::Array(n)) => elements_are_accepted(x, n, Seq::empty()),
            Ok(Head::IndefiniteArray) => open_elements_are_accepted(x, Seq::empty()),
            Ok(Head::Mapping(n)) => entries_are_accepted(x, n, Seq::empty()),
            Ok(Head::IndefiniteMapping) => open_entries_are_accepted(x, Seq::empty()),
            _ => {},
        }
    }
}

proof fn elements_are_accepted(a: Run, n: nat, done: Seq<Item>)
    requires
        all_accepted(done, a.depth, a.keys),
    ensures
        a.elements(n, done).result matches Ok(items) ==> all_accepted(items, a.depth, a.keys),
    decreases a.depth, n, 2int,
{
    if n > 0 {
        item_is_accepted(a);
        if let Ok(element) = a.item().result {
            elements_are_accepted(a.at(a.item().left), (n - 1) as nat, done.push(element));
        }
    }
}

proof fn open_elements_are_accepted(a: Run, done: Seq<Item>)
    requires
        all_accepted(done, a.depth, a.keys),
    ensures
        a.open_elements(done).result matches Ok(items) ==> all_accepted(items, a.depth, a.keys),
    decreases a.depth, a.source.rest.len(), 2int,
{
    if a.source.rest.len() > 0 {
        item_is_accepted(a);
        progress::item_progress(a.source, a.depth, a.keys);
        if let Ok(element) = a.item().result {
            open_elements_are_accepted(a.at(a.item().left), done.push(element));
        }
    }
}

proof fn entry_is_accepted(a: Run)
    requires
        grammar::key(a.source, a.keys) is Ok,
    ensures
        a.entry().result matches Ok(pair) ==> pair_accepted(pair, a.depth, a.keys),
    decreases a.depth, 0int, 2int,
{
    item_is_accepted(a);
    progress::item_progress(a.source, a.depth, a.keys);
    if a.item().result is Ok {
        key_kind(a);
        item_is_accepted(a.at(a.item().left));
    }
}

proof fn entries_are_accepted(a: Run, n: nat, done: Seq<(Item, Item)>)
    requires
        all_pairs_accepted(done, a.depth, a.keys),
    ensures
        a.entries(n, done).result matches Ok(pairs) ==> all_pairs_accepted(pairs, a.depth, a.keys),
    decreases a.depth, n, 3int,
{
    if n > 0 && grammar::key(a.source, a.keys) is Ok {
        entry_is_accepted(a);
        if let Ok(pair) = a.entry().result {
            entries_are_accepted(a.at(a.entry().left), (n - 1) as nat, done.push(pair));
        }
    }
}

proof fn open_entries_are_accepted(a: Run, done: Seq<(Item, Item)>)
    requires
        all_pairs_accepted(done, a.depth, a.keys),
    ensures
        a.open_entries(done).result matches Ok(pairs) ==> all_pairs_accepted(
            pairs,
            a.depth,
            a.keys,
        ),
    decreases a.depth, a.source.rest.len(), 3int,
{
    if grammar::open_key(a.source, a.keys) == Ok::<bool, Error>(true) {
        entry_is_accepted(a);
        progress::entry_progress(a.source, a.depth, a.keys);
        if let Ok(pair) = a.entry().result {
            open_entries_are_accepted(a.at(a.entry().left), done.push(pair));
        }
    }
}

} // verus!
