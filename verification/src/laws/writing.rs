//! How data items are written.

use vstd::prelude::*;
use crate::grammar::{Head, Item};
use crate::laws::numbers::be_bytes;

verus! {

/// A piece of a string: its content, and over how many bytes its length stretches.
#[verifier::ext_equal]
pub struct Piece {
    pub content: Seq<u8>,
    pub width: nat,
}

/// A data item as it is written: what is written, and how. Each number and each length stretches
/// over a `width` of no, one, two, four or eight bytes behind an initial byte.
pub enum Writing {
    Null,
    Bool(bool),
    /// The integer `n`.
    Unsigned { n: nat, width: nat },
    /// The integer `-1 - n`.
    Negative { n: nat, width: nat },
    F16(u16),
    F32(u32),
    F64(u64),
    Bytes(Piece),
    OpenBytes(Seq<Piece>),
    Str(Piece),
    OpenStr(Seq<Piece>),
    List { elements: Seq<Writing>, width: nat },
    OpenList { elements: Seq<Writing> },
    Mapping { entries: Seq<(Writing, Writing)>, width: nat },
    OpenMapping { entries: Seq<(Writing, Writing)> },
    /// A CID, and the byte in front of it.
    Link { prefix: u8, content: Seq<u8>, width: nat },
}

/// Whether a number can be written over so many bytes.
pub open spec fn fits(n: nat, width: nat) -> bool {
    ||| width == 0 && n < 24
    ||| width == 1 && n < 0x100
    ||| width == 2 && n < 0x1_0000
    ||| width == 4 && n < 0x1_0000_0000
    ||| width == 8 && n < 0x1_0000_0000_0000_0000
}

/// The initial byte of the major type `kind`, and the number `n` over `width` bytes.
pub open spec fn numbered(kind: int, n: nat, width: nat) -> Seq<u8> {
    if width == 0 {
        seq![(kind * 32 + n) as u8]
    } else if width == 1 {
        seq![(kind * 32 + 24) as u8] + be_bytes(n, 1)
    } else if width == 2 {
        seq![(kind * 32 + 25) as u8] + be_bytes(n, 2)
    } else if width == 4 {
        seq![(kind * 32 + 26) as u8] + be_bytes(n, 4)
    } else {
        seq![(kind * 32 + 27) as u8] + be_bytes(n, 8)
    }
}

/// A string with its length.
pub open spec fn piece_bytes(kind: int, piece: Piece) -> Seq<u8> {
    numbered(kind, piece.content.len(), piece.width) + piece.content
}

/// Strings with their lengths, one after the other.
pub open spec fn pieces_bytes(kind: int, pieces: Seq<Piece>) -> Seq<u8>
    decreases pieces.len(),
{
    if pieces.len() == 0 {
        Seq::empty()
    } else {
        piece_bytes(kind, pieces[0]) + pieces_bytes(kind, pieces.drop_first())
    }
}

/// The contents of pieces, one after the other.
pub open spec fn joined(pieces: Seq<Piece>) -> Seq<u8>
    decreases pieces.len(),
{
    if pieces.len() == 0 {
        Seq::empty()
    } else {
        pieces[0].content + joined(pieces.drop_first())
    }
}

/// Whether lengths stretch over as many bytes as they need, and fit the machine.
pub open spec fn measured(pieces: Seq<Piece>) -> bool {
    forall|i: int|
        0 <= i < pieces.len() ==> {
            let piece = #[trigger] pieces[i];
            fits(piece.content.len(), piece.width) && piece.content.len() <= usize::MAX
        }
}

/// Whether a limit on a scratch buffer lets it hold so many bytes.
pub open spec fn has_room(limit: Option<nat>, n: nat) -> bool {
    limit matches Some(capacity) ==> n <= capacity
}

impl Writing {
    /// Whether every number and every length stretches over as many bytes as it needs, every
    /// length fits the machine, every text is one, and a scratch buffer with that limit can hold
    /// every string that is written in pieces.
    pub open spec fn sound(self, limit: Option<nat>) -> bool
        decreases self,
    {
        match self {
            Writing::Unsigned { n, width } => fits(n, width),
            Writing::Negative { n, width } => fits(n, width),
            Writing::Bytes(piece) => measured(seq![piece]),
            Writing::OpenBytes(pieces) => measured(pieces) && has_room(limit, joined(pieces).len()),
            Writing::Str(piece) => {
                &&& measured(seq![piece])
                &&& vstd::utf8::valid_utf8(piece.content)
            },
            Writing::OpenStr(pieces) => {
                &&& measured(pieces)
                &&& has_room(limit, joined(pieces).len())
                &&& vstd::utf8::valid_utf8(joined(pieces))
            },
            Writing::List { elements, width } => {
                &&& fits(elements.len(), width)
                &&& elements.len() <= usize::MAX
                &&& forall|i: int|
                    0 <= i < elements.len() ==> (#[trigger] elements[i]).sound(limit)
            },
            Writing::OpenList { elements } => forall|i: int|
                0 <= i < elements.len() ==> (#[trigger] elements[i]).sound(limit),
            Writing::Mapping { entries, width } => {
                &&& fits(entries.len(), width)
                &&& entries.len() <= usize::MAX
                &&& forall|i: int|
                    0 <= i < entries.len() ==> (#[trigger] entries[i]).0.sound(limit)
                        && entries[i].1.sound(limit)
            },
            Writing::OpenMapping { entries } => forall|i: int|
                0 <= i < entries.len() ==> (#[trigger] entries[i]).0.sound(limit)
                    && entries[i].1.sound(limit),
            Writing::Link { prefix, content, width } => {
                fits(content.len() + 1, width) && content.len() + 1 <= usize::MAX
            },
            _ => true,
        }
    }

    /// The bytes that are written.
    pub open spec fn bytes(self) -> Seq<u8>
        decreases self,
    {
        match self {
            Writing::Null => seq![0xf6u8],
            Writing::Bool(false) => seq![0xf4u8],
            Writing::Bool(true) => seq![0xf5u8],
            Writing::Unsigned { n, width } => numbered(0, n, width),
            Writing::Negative { n, width } => numbered(1, n, width),
            Writing::F16(bits) => seq![0xf9u8] + be_bytes(bits as nat, 2),
            Writing::F32(bits) => seq![0xfau8] + be_bytes(bits as nat, 4),
            Writing::F64(bits) => seq![0xfbu8] + be_bytes(bits as nat, 8),
            Writing::Bytes(piece) => piece_bytes(2, piece),
            Writing::OpenBytes(pieces) => seq![0x5fu8] + (pieces_bytes(2, pieces) + seq![0xffu8]),
            Writing::Str(piece) => piece_bytes(3, piece),
            Writing::OpenStr(pieces) => seq![0x7fu8] + (pieces_bytes(3, pieces) + seq![0xffu8]),
            Writing::List { elements, width } => numbered(4, elements.len(), width) + bytes_of(
                elements,
            ),
            Writing::OpenList { elements } => seq![0x9fu8] + (bytes_of(elements) + seq![0xffu8]),
            Writing::Mapping { entries, width } => numbered(5, entries.len(), width)
                + bytes_of_pairs(entries),
            Writing::OpenMapping { entries } => seq![0xbfu8] + (bytes_of_pairs(entries)
                + seq![0xffu8]),
            Writing::Link { prefix, content, width } => seq![0xd8u8, 0x2au8] + piece_bytes(
                2,
                Piece { content: seq![prefix] + content, width },
            ),
        }
    }

    /// The item that is written.
    pub open spec fn item(self) -> Item
        decreases self,
    {
        match self {
            Writing::Null => Item::Null,
            Writing::Bool(b) => Item::Bool(b),
            Writing::Unsigned { n, width } => Item::Integer(n as int),
            Writing::Negative { n, width } => Item::Integer(-1 - n),
            Writing::F16(bits) => Item::F16(bits),
            Writing::F32(bits) => Item::F32(bits),
            Writing::F64(bits) => Item::F64(bits),
            Writing::Bytes(piece) => Item::Bytes(piece.content),
            Writing::OpenBytes(pieces) => Item::Bytes(joined(pieces)),
            Writing::Str(piece) => Item::Str(vstd::utf8::decode_utf8(piece.content)),
            Writing::OpenStr(pieces) => Item::Str(vstd::utf8::decode_utf8(joined(pieces))),
            Writing::List { elements, width } => Item::List(items_of(elements)),
            Writing::OpenList { elements } => Item::List(items_of(elements)),
            Writing::Mapping { entries, width } => Item::Mapping(items_of_pairs(entries)),
            Writing::OpenMapping { entries } => Item::Mapping(items_of_pairs(entries)),
            Writing::Link { prefix, content, width } => Item::Link(content),
        }
    }

    /// What the item begins with: all of it, unless it holds other items or is a CID.
    pub open spec fn head(self) -> Head {
        match self {
            Writing::Null => Head::Null,
            Writing::Bool(b) => Head::Bool(b),
            Writing::Unsigned { n, width } => if width <= 1 {
                Head::U8(n as u8)
            } else if width == 2 {
                Head::U16(n as u16)
            } else if width == 4 {
                Head::U32(n as u32)
            } else {
                Head::U64(n as u64)
            },
            Writing::Negative { n, width } => if width == 0 {
                Head::I8((-1 - n) as i8)
            } else if width == 1 {
                Head::I16((-1 - n) as i16)
            } else if width == 2 {
                Head::I32((-1 - n) as i32)
            } else if n < 0x8000_0000_0000_0000 {
                Head::I64((-1 - n) as i64)
            } else {
                Head::I128((-1 - n) as i128)
            },
            Writing::F16(bits) => Head::F16(bits),
            Writing::F32(bits) => Head::F32(bits),
            Writing::F64(bits) => Head::F64(bits),
            Writing::Bytes(piece) => Head::Bytes(piece.content),
            Writing::OpenBytes(pieces) => Head::Bytes(joined(pieces)),
            Writing::Str(piece) => Head::Str(vstd::utf8::decode_utf8(piece.content)),
            Writing::OpenStr(pieces) => Head::Str(vstd::utf8::decode_utf8(joined(pieces))),
            Writing::List { elements, width } => Head::Array(elements.len()),
            Writing::OpenList { elements } => Head::IndefiniteArray,
            Writing::Mapping { entries, width } => Head::Mapping(entries.len()),
            Writing::OpenMapping { entries } => Head::IndefiniteMapping,
            Writing::Link { prefix, content, width } => Head::Cid,
        }
    }

    /// The bytes of what the item begins with.
    pub open spec fn head_bytes(self) -> Seq<u8> {
        match self {
            Writing::List { elements, width } => numbered(4, elements.len(), width),
            Writing::OpenList { elements } => seq![0x9fu8],
            Writing::Mapping { entries, width } => numbered(5, entries.len(), width),
            Writing::OpenMapping { entries } => seq![0xbfu8],
            Writing::Link { prefix, content, width } => seq![0xd8u8, 0x2au8],
            _ => self.bytes(),
        }
    }

    /// The bytes behind what the item begins with.
    pub open spec fn body_bytes(self) -> Seq<u8> {
        match self {
            Writing::List { elements, width } => bytes_of(elements),
            Writing::OpenList { elements } => bytes_of(elements) + seq![0xffu8],
            Writing::Mapping { entries, width } => bytes_of_pairs(entries),
            Writing::OpenMapping { entries } => bytes_of_pairs(entries) + seq![0xffu8],
            Writing::Link { prefix, content, width } => piece_bytes(
                2,
                Piece { content: seq![prefix] + content, width },
            ),
            _ => Seq::empty(),
        }
    }
}

/// The bytes of items, one after the other.
pub open spec fn bytes_of(elements: Seq<Writing>) -> Seq<u8>
    decreases elements,
{
    if elements.len() == 0 {
        Seq::empty()
    } else {
        elements[0].bytes() + bytes_of(elements.subrange(1, elements.len() as int))
    }
}

/// The bytes of pairs of items, one after the other.
pub open spec fn bytes_of_pairs(entries: Seq<(Writing, Writing)>) -> Seq<u8>
    decreases entries,
{
    if entries.len() == 0 {
        Seq::empty()
    } else {
        entries[0].0.bytes() + (entries[0].1.bytes() + bytes_of_pairs(
            entries.subrange(1, entries.len() as int),
        ))
    }
}

/// The items that are written, one after the other.
pub open spec fn items_of(elements: Seq<Writing>) -> Seq<Item>
    decreases elements,
{
    if elements.len() == 0 {
        Seq::empty()
    } else {
        seq![elements[0].item()] + items_of(elements.subrange(1, elements.len() as int))
    }
}

/// The pairs of items that are written, one after the other.
pub open spec fn items_of_pairs(entries: Seq<(Writing, Writing)>) -> Seq<(Item, Item)>
    decreases entries,
{
    if entries.len() == 0 {
        Seq::empty()
    } else {
        seq![(entries[0].0.item(), entries[0].1.item())] + items_of_pairs(
            entries.subrange(1, entries.len() as int),
        )
    }
}

} // verus!
