//! What holds of the decoder as a whole.

pub mod accounting;
pub mod containers;
pub mod context;
pub mod endings;
pub mod failures;
pub mod items;
pub mod limits;
pub mod numbers;
pub mod operations;
pub mod parts;
pub mod places;
pub mod progress;
pub mod reading;
pub mod strings;
pub mod writing;

use vstd::prelude::*;
use crate::de;
use crate::error::{Error, ErrorCode};
use crate::grammar;
use crate::grammar::{Form, Head, Item, Keys, Step};
use crate::read::Source;
use limits::Run;
use writing::Writing;

verus! {

/// The decoder that is made by default, at a source.
pub open spec fn fresh(s: Source) -> Run {
    Run { source: s, depth: de::default_settings().depth, keys: de::default_settings().keys }
}

/// A document is consumed as a whole.
proof fn document_is_consumed(s: Source)
    requires
        grammar::document(s) is Ok,
    ensures
        fresh(s).item().result == grammar::document(s),
        fresh(s).item().left == s.advance(s.rest.len() as int),
{
    progress::item_progress(s, fresh(s).depth, fresh(s).keys);
    let left = fresh(s).item().left;
    assert(left.rest.len() == 0);
    assert(s.advance(s.rest.len() as int).rest =~= left.rest);
}

/// Where `document` is a document, a decoder that has it in front of it reads the same value,
/// wherever the document stands and whatever bytes follow it, consumes the document, and leaves
/// those bytes.
#[verifier::rlimit(50)]
pub proof fn documents_follow_each_other(document: Seq<u8>, following: Seq<u8>, s: Source)
    requires
        grammar::document(de::slice_source(document)) is Ok,
        s.rest == document + following,
        s.capacity is None,
        s.offset + s.rest.len() <= u64::MAX,
    ensures
        fresh(s).item().result == grammar::document(de::slice_source(document)),
        fresh(s).item().left == (Source {
            rest: following,
            offset: s.offset + document.len(),
            ..s
        }),
{
    let t = de::slice_source(document);
    document_is_consumed(t);
    context::item_embeds(fresh(t), fresh(s), following, s.offset as int);
    progress::item_progress(s, fresh(s).depth, fresh(s).keys);
    let left = fresh(s).item().left;
    assert(left.rest =~= following);
}

/// The values of documents, one after the other.
pub open spec fn values(documents: Seq<Seq<u8>>) -> Seq<Item> {
    Seq::new(
        documents.len(),
        |i: int| grammar::document(de::slice_source(documents[i]))->Ok_0,
    )
}

/// A stream of documents gives the value of each of them, and ends.
#[verifier::rlimit(50)]
pub proof fn streams_give_every_document(documents: Seq<Seq<u8>>, s: Source, done: Seq<Item>)
    requires
        forall|i: int|
            0 <= i < documents.len() ==> grammar::document(
                de::slice_source(#[trigger] documents[i]),
            ) is Ok,
        s.rest == documents.flatten(),
        s.capacity is None,
        s.offset + s.rest.len() <= u64::MAX,
    ensures
        fresh(s).elements(documents.len(), done) == (Step {
            result: Ok(done + values(documents)),
            left: s.advance(s.rest.len() as int),
        }),
    decreases documents.len(),
{
    if documents.len() == 0 {
        assert(done + values(documents) =~= done);
        assert(s.advance(0) =~= s);
    } else {
        let following = documents.drop_first();
        documents_follow_each_other(documents[0], following.flatten(), s);
        let left = fresh(s).item().left;
        let value = fresh(s).item().result->Ok_0;
        streams_give_every_document(following, left, done.push(value));
        assert(done.push(value) + values(following) =~= done + values(documents));
        assert(left.advance(left.rest.len() as int) =~= s.advance(s.rest.len() as int));
    }
}

/// Bytes behind a document are refused, at the first of them.
#[verifier::rlimit(50)]
pub proof fn trailing_data_is_refused(document: Seq<u8>, following: Seq<u8>)
    requires
        grammar::document(de::slice_source(document)) is Ok,
        following.len() > 0,
        document.len() + following.len() <= u64::MAX,
    ensures
        grammar::document(de::slice_source(document + following)) == Err::<Item, Error>(
            Error { code: ErrorCode::TrailingData, offset: (document.len() + 1) as u64 },
        ),
{
    documents_follow_each_other(
        document,
        following,
        de::slice_source(document + following),
    );
}

/// No document begins with another document.
pub proof fn documents_are_prefix_free(document: Seq<u8>, longer: Seq<u8>)
    requires
        grammar::document(de::slice_source(document)) is Ok,
        grammar::document(de::slice_source(longer)) is Ok,
        document.is_prefix_of(longer),
        longer.len() <= u64::MAX,
    ensures
        longer == document,
{
    let following = longer.skip(document.len() as int);
    assert(longer =~= document + following);
    if following.len() > 0 {
        trailing_data_is_refused(document, following);
    }
}

/// What a mutable slice is decoded to is what a slice of the same bytes is decoded to.
pub proof fn mutable_slices_decode_alike(bytes: Seq<u8>)
    ensures
        grammar::document(de::mut_slice_source(bytes)) == grammar::document(
            de::slice_source(bytes),
        ),
{
    limits::item_within(fresh(de::mut_slice_source(bytes)), fresh(de::slice_source(bytes)));
}

/// A scratch buffer changes nothing but that decoding may fail because the buffer is too small,
/// which happens only where the buffer is shorter than the input.
pub proof fn scratch_may_be_too_small(bytes: Seq<u8>, capacity: nat)
    ensures
        ({
            let result = grammar::document(de::scratch_source(bytes, capacity));
            ||| result == grammar::document(de::slice_source(bytes))
            ||| {
                &&& capacity < bytes.len()
                &&& result matches Err(e)
                &&& e.code == ErrorCode::ScratchTooSmall
            }
        }),
{
    limits::item_within(
        fresh(de::scratch_source(bytes, capacity)),
        fresh(de::slice_source(bytes)),
    );
}

/// Not to accept some keys changes nothing but that items with such keys are refused.
pub proof fn keys_are_only_refused(s: Source, depth: nat, keys: Keys)
    ensures
        ({
            let all = grammar::item(s, depth, Keys { named: true, packed: true });
            let read = grammar::item(s, depth, keys);
            ||| read == all
            ||| read.result matches Err(e) && e.code == ErrorCode::WrongStructFormat
        }),
{
    let a = Run { source: s, depth, keys };
    let b = Run { keys: Keys { named: true, packed: true }, ..a };
    limits::item_within(a, b);
    progress::item_progress(s, depth, a.keys);
    progress::item_progress(s, depth, b.keys);
}

/// A lower limit on nesting changes nothing but that items that are nested too deeply are refused.
pub proof fn nesting_is_only_refused(s: Source, depth: nat, deeper: nat, keys: Keys)
    requires
        depth <= deeper,
    ensures
        ({
            let read = grammar::item(s, depth, keys);
            ||| read == grammar::item(s, deeper, keys)
            ||| read.result matches Err(e) && e.code == ErrorCode::RecursionLimitExceeded
        }),
{
    let a = Run { source: s, depth, keys };
    let b = Run { depth: deeper, ..a };
    limits::item_within(a, b);
    progress::item_progress(s, depth, keys);
    progress::item_progress(s, deeper, keys);
}

/// What a decoder reads is nested less deeply than its limit, has no keys in its maps but those
/// that are accepted, and no integers but those from -2^64 to 2^64 - 1.
pub proof fn items_respect_the_settings(s: Source, depth: nat, keys: Keys)
    ensures
        grammar::item(s, depth, keys).result matches Ok(item) ==> items::accepted(
            item,
            depth,
            keys,
        ),
{
    items::item_is_accepted(Run { source: s, depth, keys });
}

/// A byte that is a break begins no item.
proof fn break_is_no_item(s: Source, depth: nat, keys: Keys)
    requires
        s.rest.len() > 0,
        s.rest[0] == 0xff,
    ensures
        grammar::item(s, depth, keys).result is Err,
{
}

/// Elements that a break follows are read alike whether their number is known or not.
pub proof fn elements_may_be_counted(s: Source, n: nat, depth: nat, keys: Keys, done: Seq<Item>)
    requires
        grammar::elements(s, n, depth, keys, done).result is Ok,
        grammar::elements(s, n, depth, keys, done).left.rest.len() > 0,
        grammar::elements(s, n, depth, keys, done).left.rest[0] == 0xff,
    ensures
        ({
            let counted = grammar::elements(s, n, depth, keys, done);
            grammar::open_elements(s, depth, keys, done) == (Step {
                result: counted.result,
                left: counted.left.advance(1),
            })
        }),
    decreases n,
{
    if n > 0 {
        let read = grammar::item(s, depth, keys);
        progress::item_progress(s, depth, keys);
        if s.rest[0] == 0xff {
            break_is_no_item(s, depth, keys);
        }
        let more = done.push(read.result->Ok_0);
        elements_may_be_counted(read.left, (n - 1) as nat, depth, keys, more);
    }
}

/// Entries that a break follows are read alike whether their number is known or not.
pub proof fn entries_may_be_counted(
    s: Source,
    n: nat,
    depth: nat,
    keys: Keys,
    done: Seq<(Item, Item)>,
)
    requires
        grammar::entries(s, n, depth, keys, done).result is Ok,
        grammar::entries(s, n, depth, keys, done).left.rest.len() > 0,
        grammar::entries(s, n, depth, keys, done).left.rest[0] == 0xff,
    ensures
        ({
            let counted = grammar::entries(s, n, depth, keys, done);
            grammar::open_entries(s, depth, keys, done) == (Step {
                result: counted.result,
                left: counted.left.advance(1),
            })
        }),
    decreases n,
{
    if n > 0 {
        let read = grammar::entry(s, depth, keys);
        progress::entry_progress(s, depth, keys);
        if s.rest[0] == 0xff {
            break_is_no_item(s, depth, keys);
        }
        let more = done.push(read.result->Ok_0);
        entries_may_be_counted(read.left, (n - 1) as nat, depth, keys, more);
    }
}

/// A list of up to 23 data items decodes to the same result, be it a value or an error, whether it
/// is written with its length or with a break.
pub proof fn counted_and_open_lists_agree(parts: Seq<Seq<u8>>, deep: nat)
    requires
        parts.len() <= 23,
        containers::all_complete(parts, deep, de::default_settings().keys),
        parts.flatten().len() + 2 <= u64::MAX,
    ensures
        grammar::document(
            de::slice_source(seq![(0x80 + parts.len()) as u8] + parts.flatten()),
        ) == grammar::document(
            de::slice_source(seq![0x9fu8] + parts.flatten() + seq![0xffu8]),
        ),
{
    let settings = de::default_settings();
    let counted = de::slice_source(seq![(0x80 + parts.len()) as u8] + parts.flatten());
    let open = de::slice_source(seq![0x9fu8] + parts.flatten() + seq![0xffu8]);
    containers::lists_agree(parts, deep, settings.depth, settings.keys);
    progress::item_progress(counted, settings.depth, settings.keys);
    progress::item_progress(open, settings.depth, settings.keys);
}

/// A map of up to 23 entries decodes to the same result, be it a value or an error, whether it is
/// written with its length or with a break.
pub proof fn counted_and_open_maps_agree(pairs: Seq<(Seq<u8>, Seq<u8>)>, deep: nat)
    requires
        pairs.len() <= 23,
        containers::all_pairs_complete(pairs, deep, de::default_settings().keys),
        containers::joined(pairs).len() + 2 <= u64::MAX,
    ensures
        grammar::document(
            de::slice_source(seq![(0xa0 + pairs.len()) as u8] + containers::joined(pairs)),
        ) == grammar::document(
            de::slice_source(seq![0xbfu8] + containers::joined(pairs) + seq![0xffu8]),
        ),
{
    let settings = de::default_settings();
    let content = containers::joined(pairs);
    let counted = de::slice_source(seq![(0xa0 + pairs.len()) as u8] + content);
    let open = de::slice_source(seq![0xbfu8] + content + seq![0xffu8]);
    containers::maps_agree(pairs, deep, settings.depth, settings.keys);
    progress::item_progress(counted, settings.depth, settings.keys);
    progress::item_progress(open, settings.depth, settings.keys);
}

/// Whatever is written decodes to what was written, where its nesting and its keys are accepted:
/// from a slice, from a mutable slice, and with a scratch buffer that can hold its strings.
pub proof fn documents_are_read_back(w: Writing, capacity: nat)
    requires
        w.sound(None),
        items::accepted(w.item(), 128, Keys { named: true, packed: true }),
        w.bytes().len() <= u64::MAX,
    ensures
        grammar::document(de::slice_source(w.bytes())) == Ok::<Item, Error>(w.item()),
        grammar::document(de::mut_slice_source(w.bytes())) == Ok::<Item, Error>(w.item()),
        w.sound(Some(capacity)) ==> grammar::document(de::scratch_source(w.bytes(), capacity))
            == Ok::<Item, Error>(w.item()),
{
    let none = Seq::<u8>::empty();
    assert(w.bytes() =~= w.bytes() + none);
    reading::item_is_read(fresh(de::slice_source(w.bytes())), w, none);
    reading::item_is_read(fresh(de::mut_slice_source(w.bytes())), w, none);
    if w.sound(Some(capacity)) {
        reading::item_is_read(fresh(de::scratch_source(w.bytes(), capacity)), w, none);
    }
}

/// Whatever decodes was written: a document is, byte by byte, a writing of what it decodes to, and
/// its nesting and its keys are accepted.
pub proof fn documents_were_written(bytes: Seq<u8>)
    ensures
        grammar::document(de::slice_source(bytes)) matches Ok(item) ==> {
            &&& items::accepted(item, 128, Keys { named: true, packed: true })
            &&& exists|w: Writing|
                #![trigger w.bytes()]
                w.sound(None) && w.bytes() == bytes && w.item() == item
        },
{
    let a = fresh(de::slice_source(bytes));
    if grammar::document(a.source) is Ok {
        document_is_consumed(a.source);
        items::item_is_accepted(a);
        let w = accounting::item_was_written(a);
        assert(w.bytes() + a.item().left.rest =~= w.bytes());
        assert(w.sound(None) && w.bytes() == bytes && w.item() == a.item().result->Ok_0);
    }
}

/// What decodes in one way decodes in no other: bytes that are written for two items are written
/// for one.
pub proof fn writings_are_unambiguous(v: Writing, w: Writing)
    requires
        v.sound(None),
        w.sound(None),
        v.bytes() == w.bytes(),
        items::accepted(v.item(), 128, Keys { named: true, packed: true }),
        items::accepted(w.item(), 128, Keys { named: true, packed: true }),
        w.bytes().len() <= u64::MAX,
    ensures
        v.item() == w.item(),
{
    documents_are_read_back(v, 0);
    documents_are_read_back(w, 0);
}

/// What is written is refused where its nesting or its keys are not accepted, and for that reason.
pub proof fn writings_are_only_refused_by_the_settings(
    w: Writing,
    deep: nat,
    s: Source,
    depth: nat,
    keys: Keys,
    following: Seq<u8>,
)
    requires
        w.sound(s.capacity),
        s.rest == w.bytes() + following,
        s.offset + s.rest.len() <= u64::MAX,
        items::accepted(w.item(), deep, Keys { named: true, packed: true }),
        depth <= deep,
    ensures
        items::accepted(w.item(), depth, keys) ==> grammar::item(s, depth, keys).result == Ok::<
            Item,
            Error,
        >(w.item()),
        !items::accepted(w.item(), depth, keys) ==> {
            &&& grammar::item(s, depth, keys).result matches Err(e)
            &&& e.code == ErrorCode::RecursionLimitExceeded && depth < deep || e.code
                == ErrorCode::WrongStructFormat && !(keys.named && keys.packed)
        },
{
    let a = Run { source: s, depth, keys };
    let b = Run { source: s, depth: deep, keys: Keys { named: true, packed: true } };
    reading::item_is_read(b, w, following);
    limits::item_within(a, b);
    items::item_is_accepted(a);
    if items::accepted(w.item(), depth, keys) {
        reading::item_is_read(a, w, following);
    }
}

/// A document fails as its item fails.
pub proof fn documents_fail_with_their_items(s: Source)
    ensures
        grammar::item(s, 128, Keys { named: true, packed: true }).result matches Err(e)
            ==> grammar::document(s) == Err::<Item, Error>(e),
        grammar::document(s) matches Ok(item) ==> grammar::item(
            s,
            128,
            Keys { named: true, packed: true },
        ).result == Ok::<Item, Error>(item),
{
}

/// A document that ends too early is refused at its end.
pub proof fn documents_that_end_too_early_are_refused(w: Writing, n: int)
    requires
        w.sound(None),
        items::accepted(w.item(), 128, Keys { named: true, packed: true }),
        w.bytes().len() <= u64::MAX,
        0 <= n < w.bytes().len(),
    ensures
        ({
            let s = de::slice_source(w.bytes().take(n));
            &&& grammar::document(s) matches Err(e)
            &&& e.offset == n
            &&& e.code == ErrorCode::EofWhileParsingValue || e.code
                == ErrorCode::EofWhileParsingArray || e.code == ErrorCode::EofWhileParsingMap
        }),
{
    let a = fresh(de::slice_source(w.bytes().take(n)));
    endings::item_is_cut(a, w);
}

/// A CID, behind its tag and in a byte string with a null byte in front of it, decodes to a link to
/// it, whatever its length and whatever follows it.
pub proof fn links_are_read_back(content: Seq<u8>, width: nat, following: Seq<u8>, a: Run)
    requires
        writing::fits(content.len() + 1, width),
        content.len() + 1 <= usize::MAX,
        a.depth > 1,
        a.source.rest == seq![0xd8u8, 0x2au8] + writing::numbered(2, content.len() + 1, width)
            + seq![0u8] + content + following,
        a.source.offset + a.source.rest.len() <= u64::MAX,
    ensures
        a.item() == (Step::<Item> {
            result: Ok(Item::Link(content)),
            left: a.source.advance(a.source.rest.len() - following.len()),
        }),
{
    let w = Writing::Link { prefix: 0, content, width };
    assert(a.source.rest =~= w.bytes() + following);
    reading::item_is_read(a, w, following);
}

/// A floating-point number decodes to its bits, whatever they are and whatever follows them.
pub proof fn floats_are_read_back(b16: u16, b32: u32, b64: u64, following: Seq<u8>, s: Source)
    requires
        s.offset + s.rest.len() <= u64::MAX,
    ensures
        s.rest == seq![0xf9u8] + numbers::be_bytes(b16 as nat, 2) + following ==> grammar::head(s)
            == (Step::<Head> { result: Ok(Head::F16(b16)), left: s.advance(3) }),
        s.rest == seq![0xfau8] + numbers::be_bytes(b32 as nat, 4) + following ==> grammar::head(s)
            == (Step::<Head> { result: Ok(Head::F32(b32)), left: s.advance(5) }),
        s.rest == seq![0xfbu8] + numbers::be_bytes(b64 as nat, 8) + following ==> grammar::head(s)
            == (Step::<Head> { result: Ok(Head::F64(b64)), left: s.advance(9) }),
{
    reading::powers();
    numbers::numbers_come_back(b16 as nat, 2);
    numbers::numbers_come_back(b32 as nat, 4);
    numbers::numbers_come_back(b64 as nat, 8);
    if s.rest == seq![0xf9u8] + numbers::be_bytes(b16 as nat, 2) + following {
        reading::head_is_read(s, Writing::F16(b16), following);
    }
    if s.rest == seq![0xfau8] + numbers::be_bytes(b32 as nat, 4) + following {
        reading::head_is_read(s, Writing::F32(b32), following);
    }
    if s.rest == seq![0xfbu8] + numbers::be_bytes(b64 as nat, 8) + following {
        reading::head_is_read(s, Writing::F64(b64), following);
    }
}

/// Where decoding a slice fails, the error points to a place in the slice or to its end.
pub proof fn errors_point_into_the_input(bytes: Seq<u8>)
    requires
        bytes.len() <= u64::MAX,
    ensures
        grammar::document(de::slice_source(bytes)) matches Err(e) ==> e.offset <= bytes.len(),
{
    let a = fresh(de::slice_source(bytes));
    places::item_is_well_placed(a);
    progress::item_progress(a.source, a.depth, a.keys);
}

/// The only tag that is accepted is that of a CID, in its two bytes.
pub proof fn only_cids_are_tagged(s: Source)
    requires
        s.rest.len() > 0,
        grammar::major(s.rest[0]) == 6,
    ensures
        grammar::head(s).result is Ok <==> s.rest.len() > 1 && s.rest[0] == 0xd8 && s.rest[1] == 42,
        grammar::head(s).result is Ok ==> grammar::head(s) == (Step {
            result: Ok(Head::Cid),
            left: s.advance(2),
        }),
{
    reveal_with_fuel(grammar::big_endian, 2);
    if s.rest.len() > 1 {
        assert(s.advance(1).advance(1).rest =~= s.advance(2).rest);
    }
}

/// A newtype struct that stands for a CID begins where an item that is a CID begins.
pub proof fn cid_tags_agree(s: Source)
    ensures
        grammar::cid_tag(s).result is Ok <==> grammar::head(s).result == Ok::<Head, Error>(
            Head::Cid,
        ),
        grammar::cid_tag(s).result is Ok ==> grammar::cid_tag(s).left == grammar::head(s).left,
{
    reveal_with_fuel(grammar::big_endian, 3);
    if s.rest.len() > 0 && grammar::major(s.rest[0]) == 6 {
        only_cids_are_tagged(s);
    }
}

/// Which settings let an enum be written in which way. Where neither is set, no enum is read. A
/// variant on its own is of a kind that is accepted as a key.
pub proof fn enum_formats(s: Source, standard: bool, legacy: bool, keys: Keys)
    ensures
        match grammar::enum_form(s, standard, legacy, keys).result {
            Ok(Form::Array(_)) => legacy,
            Ok(Form::IndefiniteArray) => legacy,
            Ok(Form::Mapping) => standard,
            Ok(Form::Unit) => (standard || legacy) && !grammar::refused(keys, s.rest[0]),
            Err(_) => true,
        },
        s.rest.len() > 0 && !standard && !legacy ==> grammar::enum_form(
            s,
            standard,
            legacy,
            keys,
        ).result == Err::<Form, Error>(s.error(ErrorCode::WrongEnumFormat)),
{
}

} // verus!
