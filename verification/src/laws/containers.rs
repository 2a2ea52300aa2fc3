//! What lists and maps are read as, with a length and with a break.

use vstd::prelude::*;
use crate::de;
use crate::error::{Error, ErrorCode};
use crate::grammar;
use crate::grammar::{Head, Item, Keys, Step};
use crate::laws::context;
use crate::laws::limits;
use crate::laws::limits::Run;
use crate::laws::progress;

verus! {

/// The decoder of some bytes on their own.
pub open spec fn alone(bytes: Seq<u8>, depth: nat, keys: Keys) -> Run {
    Run { source: de::slice_source(bytes), depth, keys }
}

/// Whether bytes are one data item, and nothing more, to a decoder that may go down `deep` levels.
pub open spec fn complete(bytes: Seq<u8>, deep: nat, keys: Keys) -> bool {
    let read = alone(bytes, deep, keys).item();
    read.result is Ok && read.left.rest.len() == 0
}

/// Whether every part is one data item.
pub open spec fn all_complete(parts: Seq<Seq<u8>>, deep: nat, keys: Keys) -> bool {
    forall|i: int| 0 <= i < parts.len() ==> complete(#[trigger] parts[i], deep, keys)
}

/// Whether every pair is a key and a value.
pub open spec fn all_pairs_complete(
    pairs: Seq<(Seq<u8>, Seq<u8>)>,
    deep: nat,
    keys: Keys,
) -> bool {
    forall|i: int|
        0 <= i < pairs.len() ==> {
            let (key, value) = #[trigger] pairs[i];
            complete(key, deep, keys) && complete(value, deep, keys)
        }
}

/// The bytes of keys and values, one after the other.
pub open spec fn joined(pairs: Seq<(Seq<u8>, Seq<u8>)>) -> Seq<u8>
    decreases pairs.len(),
{
    if pairs.len() == 0 {
        Seq::empty()
    } else {
        pairs[0].0 + (pairs[0].1 + joined(pairs.drop_first()))
    }
}

/// Whether two decoders that differ in nothing else have `ahead` in front of them, with
/// `following` behind it for the one and `other` for the other.
spec fn abreast(
    a: Run,
    b: Run,
    ahead: Seq<u8>,
    following: Seq<u8>,
    other: Seq<u8>,
) -> bool {
    &&& a.source.rest == ahead + following
    &&& b.source.rest == ahead + other
    &&& a.source.offset == b.source.offset
    &&& a.source.capacity is None
    &&& b.source.capacity is None
    &&& a.source.offset + a.source.rest.len() <= u64::MAX
    &&& b.source.offset + b.source.rest.len() <= u64::MAX
    &&& a.depth == b.depth
    &&& a.keys == b.keys
}

/// Reading a data item that is complete fails, if at all, because it is nested too deeply, and
/// fails alike whatever stands behind it.
proof fn item_abreast(
    a: Run,
    b: Run,
    part: Seq<u8>,
    following: Seq<u8>,
    other: Seq<u8>,
    deep: nat,
)
    requires
        abreast(a, b, part, following, other),
        complete(part, deep, a.keys),
    ensures
        a.item().result == b.item().result,
        match a.item().result {
            Ok(item) => {
                &&& alone(part, deep, a.keys).item().result == Ok::<Item, Error>(item)
                &&& abreast(
                    a.at(a.item().left),
                    b.at(b.item().left),
                    Seq::empty(),
                    following,
                    other,
                )
            },
            Err(e) => e.code == ErrorCode::RecursionLimitExceeded && a.depth < deep,
        },
{
    let p = alone(part, a.depth, a.keys);
    let o = alone(part, deep, a.keys);
    let q = if a.depth <= deep {
        o
    } else {
        p
    };
    assert(part =~= part + Seq::<u8>::empty());
    context::item_embeds(o, q, Seq::empty(), 0);
    limits::item_within(p, q);
    context::item_embeds(p, a, following, a.source.offset as int);
    context::item_embeds(p, b, other, a.source.offset as int);
    progress::item_progress(p.source, p.depth, p.keys);
    progress::item_progress(a.source, a.depth, a.keys);
    progress::item_progress(b.source, b.depth, b.keys);
    if a.item().result is Ok {
        assert(Seq::<u8>::empty() + following =~= following);
        assert(Seq::<u8>::empty() + other =~= other);
    }
}

/// The first byte of a complete data item is no break.
proof fn complete_begins(part: Seq<u8>, deep: nat, keys: Keys)
    requires
        complete(part, deep, keys),
    ensures
        part.len() > 0,
        part[0] != 0xff,
{
    progress::item_progress(de::slice_source(part), deep, keys);
}

/// Whether counting up and looking for the break come to the same, with nothing left over on
/// success.
spec fn same_end<T>(x: Step<T>, y: Step<T>) -> bool {
    &&& x.result == y.result
    &&& x.result is Ok ==> {
        &&& x.left.rest.len() == 0
        &&& y.left.rest.len() == 0
        &&& !x.left.broken
        &&& !y.left.broken
    }
}

proof fn elements_agree(a: Run, b: Run, parts: Seq<Seq<u8>>, deep: nat, done: Seq<Item>)
    requires
        all_complete(parts, deep, a.keys),
        abreast(a, b, parts.flatten(), Seq::empty(), seq![0xff]),
        !a.source.broken,
        !b.source.broken,
    ensures
        same_end(a.elements(parts.len(), done), b.open_elements(done)),
        a.elements(parts.len(), done).result matches Err(e) ==> e.code
            == ErrorCode::RecursionLimitExceeded && a.depth < deep,
    decreases parts.len(),
{
    if parts.len() == 0 {
        assert(parts.flatten() =~= Seq::<u8>::empty());
    } else {
        let following = parts.drop_first();
        let rest = following.flatten() + Seq::<u8>::empty();
        let other = following.flatten() + seq![0xffu8];
        assert(parts.flatten() == parts[0] + following.flatten());
        assert(a.source.rest =~= parts[0] + rest);
        assert(b.source.rest =~= parts[0] + other);
        item_abreast(a, b, parts[0], rest, other, deep);
        complete_begins(parts[0], deep, a.keys);
        assert(b.source.rest[0] == parts[0][0]);
        progress::item_progress(a.source, a.depth, a.keys);
        progress::item_progress(b.source, b.depth, b.keys);
        if let Ok(item) = a.item().result {
            let x = a.at(a.item().left);
            let y = b.at(b.item().left);
            assert(Seq::<u8>::empty() + rest =~= rest);
            assert(Seq::<u8>::empty() + other =~= other);
            elements_agree(x, y, following, deep, done.push(item));
        }
    }
}

proof fn entries_agree(
    a: Run,
    b: Run,
    pairs: Seq<(Seq<u8>, Seq<u8>)>,
    deep: nat,
    done: Seq<(Item, Item)>,
)
    requires
        all_pairs_complete(pairs, deep, a.keys),
        abreast(a, b, joined(pairs), Seq::empty(), seq![0xff]),
        !a.source.broken,
        !b.source.broken,
    ensures
        same_end(a.entries(pairs.len(), done), b.open_entries(done)),
        a.entries(pairs.len(), done).result matches Err(e) ==> {
            ||| e.code == ErrorCode::RecursionLimitExceeded && a.depth < deep
            ||| e.code == ErrorCode::WrongStructFormat && !(a.keys.named && a.keys.packed)
        },
    decreases pairs.len(),
{
    if pairs.len() > 0 {
        let (key, value) = pairs[0];
        let following = pairs.drop_first();
        let rest = joined(following) + Seq::<u8>::empty();
        let other = joined(following) + seq![0xffu8];
        assert(a.source.rest =~= key + (value + rest));
        assert(b.source.rest =~= key + (value + other));
        item_abreast(a, b, key, value + rest, value + other, deep);
        complete_begins(key, deep, a.keys);
        assert(b.source.rest[0] == key[0]);
        assert(a.source.rest[0] == key[0]);
        progress::entry_progress(a.source, a.depth, a.keys);
        progress::entry_progress(b.source, b.depth, b.keys);
        progress::item_progress(a.source, a.depth, a.keys);
        progress::item_progress(b.source, b.depth, b.keys);
        if a.item().result is Ok {
            let x = a.at(a.item().left);
            let y = b.at(b.item().left);
            assert(Seq::<u8>::empty() + (value + rest) =~= value + rest);
            assert(Seq::<u8>::empty() + (value + other) =~= value + other);
            item_abreast(x, y, value, rest, other, deep);
            progress::item_progress(x.source, x.depth, x.keys);
            progress::item_progress(y.source, y.depth, y.keys);
            if let Ok(pair) = a.entry().result {
                assert(Seq::<u8>::empty() + rest =~= rest);
                assert(Seq::<u8>::empty() + other =~= other);
                assert(a.entry().left == x.item().left);
                assert(b.entry().left == y.item().left);
                entries_agree(
                    a.at(a.entry().left),
                    b.at(b.entry().left),
                    following,
                    deep,
                    done.push(pair),
                );
            }
        }
    }
}

/// A list of up to 23 data items is read alike, whether it is written with its length or with a
/// break. It fails alike too, and then because it is nested too deeply.
pub proof fn lists_agree(parts: Seq<Seq<u8>>, deep: nat, depth: nat, keys: Keys)
    requires
        parts.len() <= 23,
        all_complete(parts, deep, keys),
        parts.flatten().len() + 2 <= u64::MAX,
    ensures
        ({
            let counted = alone(seq![(0x80 + parts.len()) as u8] + parts.flatten(), depth, keys);
            let open = alone(seq![0x9fu8] + parts.flatten() + seq![0xffu8], depth, keys);
            &&& counted.item().result == open.item().result
            &&& match counted.item().result {
                Ok(_) => {
                    &&& counted.item().left.rest.len() == 0
                    &&& open.item().left.rest.len() == 0
                },
                Err(e) => e.code == ErrorCode::RecursionLimitExceeded && depth <= deep + 1,
            }
        }),
{
    let first: u8 = (0x80 + parts.len()) as u8;
    let counted = alone(seq![first] + parts.flatten(), depth, keys);
    let open = alone(seq![0x9fu8] + parts.flatten() + seq![0xffu8], depth, keys);
    assert(grammar::major(first) == 4 && grammar::info(first) == parts.len());
    assert(counted.source.rest[0] == first);
    assert(open.source.rest[0] == 0x9f);
    let s = counted.source.advance(1);
    let t = open.source.advance(1);
    assert(grammar::head(counted.source) == (Step {
        result: Ok(Head::Array(parts.len())),
        left: s,
    }));
    assert(grammar::head(open.source) == (Step { result: Ok(Head::IndefiniteArray), left: t }));
    assert(s.rest =~= parts.flatten() + Seq::<u8>::empty());
    assert(t.rest =~= parts.flatten() + seq![0xffu8]);
    if depth > 1 {
        elements_agree(counted.down(s), open.down(t), parts, deep, Seq::empty());
    }
}

/// A map of up to 23 entries is read alike, whether it is written with its length or with a break.
/// It fails alike too, and then because it is nested too deeply or has a key that is not accepted.
pub proof fn maps_agree(pairs: Seq<(Seq<u8>, Seq<u8>)>, deep: nat, depth: nat, keys: Keys)
    requires
        pairs.len() <= 23,
        all_pairs_complete(pairs, deep, keys),
        joined(pairs).len() + 2 <= u64::MAX,
    ensures
        ({
            let counted = alone(seq![(0xa0 + pairs.len()) as u8] + joined(pairs), depth, keys);
            let open = alone(seq![0xbfu8] + joined(pairs) + seq![0xffu8], depth, keys);
            &&& counted.item().result == open.item().result
            &&& match counted.item().result {
                Ok(_) => {
                    &&& counted.item().left.rest.len() == 0
                    &&& open.item().left.rest.len() == 0
                },
                Err(e) => {
                    ||| e.code == ErrorCode::RecursionLimitExceeded && depth <= deep + 1
                    ||| e.code == ErrorCode::WrongStructFormat && !(keys.named && keys.packed)
                },
            }
        }),
{
    let first: u8 = (0xa0 + pairs.len()) as u8;
    let counted = alone(seq![first] + joined(pairs), depth, keys);
    let open = alone(seq![0xbfu8] + joined(pairs) + seq![0xffu8], depth, keys);
    assert(grammar::major(first) == 5 && grammar::info(first) == pairs.len());
    assert(counted.source.rest[0] == first);
    assert(open.source.rest[0] == 0xbf);
    let s = counted.source.advance(1);
    let t = open.source.advance(1);
    assert(grammar::head(counted.source) == (Step {
        result: Ok(Head::Mapping(pairs.len())),
        left: s,
    }));
    assert(grammar::head(open.source) == (Step { result: Ok(Head::IndefiniteMapping), left: t }));
    assert(s.rest =~= joined(pairs) + Seq::<u8>::empty());
    assert(t.rest =~= joined(pairs) + seq![0xffu8]);
    if depth > 1 {
        entries_agree(counted.down(s), open.down(t), pairs, deep, Seq::empty());
    }
}

} // verus!
