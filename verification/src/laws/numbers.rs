//! How numbers are written.

use vstd::prelude::*;
use vstd::arithmetic::power::pow;
use crate::error::Error;
use crate::grammar;
use crate::grammar::{Head, Step};
use crate::read::Source;

verus! {

/// The `width` bytes in which a number is written, the most significant byte first.
pub open spec fn be_bytes(n: nat, width: nat) -> Seq<u8>
    decreases width,
{
    if width == 0 {
        Seq::empty()
    } else {
        be_bytes(n / 256, (width - 1) as nat).push((n % 256) as u8)
    }
}

/// A number that fits comes back from the bytes in which it is written.
pub proof fn numbers_come_back(n: nat, width: nat)
    requires
        n < pow(256, width),
    ensures
        be_bytes(n, width).len() == width,
        grammar::big_endian(be_bytes(n, width)) == n,
    decreases width,
{
    reveal(pow);
    if width > 0 {
        let high = n / 256;
        let less = (width - 1) as nat;
        assert(pow(256, width) == 256 * pow(256, less));
        assert(high < pow(256, less)) by (nonlinear_arith)
            requires
                n < 256 * pow(256, less),
                high == n / 256,
        ;
        numbers_come_back(high, less);
        assert(be_bytes(n, width).drop_last() =~= be_bytes(high, less));
        assert(be_bytes(n, width).last() == n % 256);
    }
}

/// Reading a number takes exactly the bytes in which it is written, and gives the number.
pub proof fn numbers_are_read_back(n: nat, width: nat, following: Seq<u8>, s: Source)
    requires
        n < pow(256, width),
        s.rest == be_bytes(n, width) + following,
    ensures
        grammar::number(s, width as int) == (Step {
            result: Ok(n),
            left: s.advance(width as int),
        }),
        s.advance(width as int).rest == following,
{
    numbers_come_back(n, width);
    assert(s.rest.take(width as int) =~= be_bytes(n, width));
    assert(s.rest.skip(width as int) =~= following);
}

/// Every 64-bit number comes back from its eight bytes, whatever follows them, and fewer bytes
/// give none.
pub proof fn u64_is_read_back(n: u64, following: Seq<u8>, s: Source)
    ensures
        s.rest == be_bytes(n as nat, 8) + following ==> {
            &&& grammar::number(s, 8) == (Step { result: Ok(n as nat), left: s.advance(8) })
            &&& s.advance(8).rest == following
        },
        s.rest.len() < 8 ==> grammar::number(s, 8).result == Err::<nat, Error>(s.shortage()),
{
    assert(pow(256, 8) == 0x1_0000_0000_0000_0000) by {
        reveal_with_fuel(pow, 9);
    }
    if s.rest == be_bytes(n as nat, 8) + following {
        numbers_are_read_back(n as nat, 8, following, s);
    }
}

/// An unsigned integer of eight bytes is the number that the bytes stand for.
pub proof fn unsigned_is_read_back(n: u64, following: Seq<u8>, s: Source)
    requires
        s.rest == seq![0x1bu8] + (be_bytes(n as nat, 8) + following),
    ensures
        grammar::head(s) == (Step { result: Ok(Head::U64(n)), left: s.advance(9) }),
{
    let s1 = s.advance(1);
    assert(s.rest[0] == 0x1b);
    assert(s1.rest =~= be_bytes(n as nat, 8) + following);
    u64_is_read_back(n, following, s1);
    assert(s1.advance(8).rest =~= s.advance(9).rest) by {
        assert(be_bytes(n as nat, 8).len() == 8) by {
            reveal_with_fuel(be_bytes, 9);
        }
    }
}

} // verus!
