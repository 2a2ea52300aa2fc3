//! What lists and maps decode to, in terms of what their parts decode to.

use vstd::prelude::*;
use crate::grammar::{Item, Keys};
use crate::laws::accounting;
use crate::laws::containers;
use crate::laws::items;
use crate::laws::reading;
use crate::laws::writing;
use crate::laws::writing::Writing;

verus! {

/// What bytes decode to on their own.
pub open spec fn decoded(bytes: Seq<u8>, depth: nat, keys: Keys) -> Item {
    containers::alone(bytes, depth, keys).item().result->Ok_0
}

/// Bytes that are one data item were written as what they decode to.
proof fn complete_was_written(part: Seq<u8>, depth: nat, keys: Keys) -> (w: Writing)
    requires
        containers::complete(part, depth, keys),
    ensures
        w.sound(None),
        w.bytes() == part,
        w.item() == decoded(part, depth, keys),
        items::accepted(w.item(), depth, keys),
{
    let a = containers::alone(part, depth, keys);
    let w = accounting::item_was_written(a);
    items::item_is_accepted(a);
    assert(w.bytes() + a.item().left.rest =~= w.bytes());
    w
}

proof fn parts_were_written(parts: Seq<Seq<u8>>, depth: nat, keys: Keys) -> (ws: Seq<Writing>)
    requires
        containers::all_complete(parts, depth, keys),
    ensures
        ws.len() == parts.len(),
        writing::bytes_of(ws) == parts.flatten(),
        forall|i: int|
            0 <= i < ws.len() ==> (#[trigger] ws[i]).sound(None) && items::accepted(
                ws[i].item(),
                depth,
                keys,
            ) && ws[i].item() == decoded(parts[i], depth, keys),
    decreases parts.len(),
{
    if parts.len() == 0 {
        Seq::empty()
    } else {
        let first = complete_was_written(parts[0], depth, keys);
        let more = parts_were_written(parts.drop_first(), depth, keys);
        let ws = seq![first] + more;
        assert(ws.subrange(1, ws.len() as int) =~= more);
        assert forall|i: int| 0 <= i < ws.len() implies (#[trigger] ws[i]).sound(None)
            && items::accepted(ws[i].item(), depth, keys) && ws[i].item() == decoded(
            parts[i],
            depth,
            keys,
        ) by {
            if i > 0 {
                assert(ws[i] == more[i - 1]);
            }
        }
        ws
    }
}

/// Whether a key and its value were written as what they decode to, and are accepted.
spec fn pair_was_written(
    pair: (Writing, Writing),
    part: (Seq<u8>, Seq<u8>),
    depth: nat,
    keys: Keys,
) -> bool {
    &&& pair.0.sound(None)
    &&& pair.1.sound(None)
    &&& items::accepted(pair.0.item(), depth, keys)
    &&& items::accepted(pair.1.item(), depth, keys)
    &&& pair.0.item() == decoded(part.0, depth, keys)
    &&& pair.1.item() == decoded(part.1, depth, keys)
}

proof fn pairs_were_written(parts: Seq<(Seq<u8>, Seq<u8>)>, depth: nat, keys: Keys) -> (ws: Seq<
    (Writing, Writing),
>)
    requires
        containers::all_pairs_complete(parts, depth, keys),
    ensures
        ws.len() == parts.len(),
        writing::bytes_of_pairs(ws) == containers::joined(parts),
        forall|i: int|
            0 <= i < ws.len() ==> pair_was_written(#[trigger] ws[i], parts[i], depth, keys),
    decreases parts.len(),
{
    if parts.len() == 0 {
        Seq::empty()
    } else {
        let key = complete_was_written(parts[0].0, depth, keys);
        let value = complete_was_written(parts[0].1, depth, keys);
        let more = pairs_were_written(parts.drop_first(), depth, keys);
        let ws = seq![(key, value)] + more;
        assert(ws.subrange(1, ws.len() as int) =~= more);
        assert forall|i: int| 0 <= i < ws.len() implies pair_was_written(
            #[trigger] ws[i],
            parts[i],
            depth,
            keys,
        ) by {
            if i > 0 {
                assert(ws[i] == more[i - 1]);
            }
        }
        ws
    }
}

/// Whether a list is that of what the parts decode to, each on its own.
pub open spec fn lists(item: Item, parts: Seq<Seq<u8>>, depth: nat, keys: Keys) -> bool {
    &&& item matches Item::List(elements)
    &&& elements.len() == parts.len()
    &&& forall|i: int|
        0 <= i < parts.len() ==> #[trigger] elements[i] == decoded(parts[i], depth, keys)
}

/// Whether a map is that of what the keys and values decode to, each on its own.
pub open spec fn maps(
    item: Item,
    parts: Seq<(Seq<u8>, Seq<u8>)>,
    depth: nat,
    keys: Keys,
) -> bool {
    &&& item matches Item::Mapping(entries)
    &&& entries.len() == parts.len()
    &&& forall|i: int|
        0 <= i < parts.len() ==> #[trigger] entries[i] == (
            decoded(parts[i].0, depth, keys),
            decoded(parts[i].1, depth, keys),
        )
}

/// Data items behind the head of a list that counts them, of whatever width, or between the head
/// of a list without a length and a break, decode to the list of exactly what each of them decodes
/// to on its own, in that order. Nothing is left of them.
pub proof fn lists_decode_to_their_parts(
    parts: Seq<Seq<u8>>,
    width: nat,
    depth: nat,
    keys: Keys,
)
    requires
        containers::all_complete(parts, (depth - 1) as nat, keys),
        depth > 1,
        parts.flatten().len() + 9 <= u64::MAX,
    ensures
        writing::fits(parts.len(), width) && parts.len() <= usize::MAX ==> {
            let read = containers::alone(
                writing::numbered(4, parts.len(), width) + parts.flatten(),
                depth,
                keys,
            ).item();
            &&& read.result matches Ok(item)
            &&& lists(item, parts, (depth - 1) as nat, keys)
            &&& read.left.rest.len() == 0
        },
        ({
            let read = containers::alone(
                seq![0x9fu8] + (parts.flatten() + seq![0xffu8]),
                depth,
                keys,
            ).item();
            &&& read.result matches Ok(item)
            &&& lists(item, parts, (depth - 1) as nat, keys)
            &&& read.left.rest.len() == 0
        }),
{
    let elements = parts_were_written(parts, (depth - 1) as nat, keys);
    reading::items_one_by_one(elements);
    let list = Item::List(writing::items_of(elements));
    assert(items::accepted(list, depth, keys)) by {
        assert forall|i: int| 0 <= i < list->List_0.len() implies items::accepted(
            #[trigger] list->List_0[i],
            (depth - 1) as nat,
            keys,
        ) by {
            assert(writing::items_of(elements)[i] == elements[i].item());
        }
    }
    assert(lists(list, parts, (depth - 1) as nat, keys)) by {
        assert forall|i: int| 0 <= i < parts.len() implies #[trigger] list->List_0[i] == decoded(
            parts[i],
            (depth - 1) as nat,
            keys,
        ) by {
            assert(writing::items_of(elements)[i] == elements[i].item());
        }
    }
    if writing::fits(parts.len(), width) && parts.len() <= usize::MAX {
        let w = Writing::List { elements, width };
        let a = containers::alone(w.bytes(), depth, keys);
        assert(a.source.rest =~= w.bytes() + Seq::<u8>::empty());
        reading::numbered_is_read(a.source, 4, parts.len(), width, parts.flatten());
        reading::item_is_read(a, w, Seq::empty());
    }
    let w = Writing::OpenList { elements };
    let a = containers::alone(w.bytes(), depth, keys);
    assert(a.source.rest =~= w.bytes() + Seq::<u8>::empty());
    reading::item_is_read(a, w, Seq::empty());
}

/// Keys and values behind the head of a map that counts the entries, of whatever width, or between
/// the head of a map without a length and a break, decode to the map of exactly what each of them
/// decodes to on its own, in that order. Nothing is left of them.
pub proof fn maps_decode_to_their_parts(
    parts: Seq<(Seq<u8>, Seq<u8>)>,
    width: nat,
    depth: nat,
    keys: Keys,
)
    requires
        containers::all_pairs_complete(parts, (depth - 1) as nat, keys),
        forall|i: int|
            0 <= i < parts.len() ==> items::key_accepted(
                decoded((#[trigger] parts[i]).0, (depth - 1) as nat, keys),
                keys,
            ),
        depth > 1,
        containers::joined(parts).len() + 9 <= u64::MAX,
    ensures
        writing::fits(parts.len(), width) && parts.len() <= usize::MAX ==> {
            let read = containers::alone(
                writing::numbered(5, parts.len(), width) + containers::joined(parts),
                depth,
                keys,
            ).item();
            &&& read.result matches Ok(item)
            &&& maps(item, parts, (depth - 1) as nat, keys)
            &&& read.left.rest.len() == 0
        },
        ({
            let read = containers::alone(
                seq![0xbfu8] + (containers::joined(parts) + seq![0xffu8]),
                depth,
                keys,
            ).item();
            &&& read.result matches Ok(item)
            &&& maps(item, parts, (depth - 1) as nat, keys)
            &&& read.left.rest.len() == 0
        }),
{
    let entries = pairs_were_written(parts, (depth - 1) as nat, keys);
    reading::pairs_one_by_one(entries);
    let map = Item::Mapping(writing::items_of_pairs(entries));
    assert forall|i: int| 0 <= i < parts.len() implies {
        &&& #[trigger] map->Mapping_0[i] == (
            decoded(parts[i].0, (depth - 1) as nat, keys),
            decoded(parts[i].1, (depth - 1) as nat, keys),
        )
        &&& items::accepted(map->Mapping_0[i].0, (depth - 1) as nat, keys)
        &&& items::accepted(map->Mapping_0[i].1, (depth - 1) as nat, keys)
    } by {
        assert(pair_was_written(entries[i], parts[i], (depth - 1) as nat, keys));
        assert(writing::items_of_pairs(entries)[i] == (
        entries[i].0.item(), entries[i].1.item()));
    }
    assert(items::accepted(map, depth, keys));
    assert(maps(map, parts, (depth - 1) as nat, keys));
    assert forall|i: int| 0 <= i < entries.len() implies (#[trigger] entries[i]).0.sound(None)
        && entries[i].1.sound(None) by {
        assert(pair_was_written(entries[i], parts[i], (depth - 1) as nat, keys));
    }
    if writing::fits(parts.len(), width) && parts.len() <= usize::MAX {
        let w = Writing::Mapping { entries, width };
        let a = containers::alone(w.bytes(), depth, keys);
        assert(a.source.rest =~= w.bytes() + Seq::<u8>::empty());
        reading::numbered_is_read(a.source, 5, parts.len(), width, containers::joined(parts));
        reading::item_is_read(a, w, Seq::empty());
    }
    let w = Writing::OpenMapping { entries };
    let a = containers::alone(w.bytes(), depth, keys);
    assert(a.source.rest =~= w.bytes() + Seq::<u8>::empty());
    reading::item_is_read(a, w, Seq::empty());
}

} // verus!
