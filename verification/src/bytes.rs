//! Numbers as the bytes in which a machine holds them.

use vstd::prelude::*;

verus! {

/// The order in which a machine holds the bytes of a number.
#[derive(Clone, Copy, Debug, PartialEq, Eq, Structural)]
pub enum ByteOrder {
    /// The lowest byte first.
    Little,
    /// The highest byte first.
    Big,
}

/// The number whose bytes are `b`, the lowest first.
pub open spec fn low_first(b: Seq<u8>) -> nat
    decreases b.len(),
{
    if b.len() == 0 {
        0
    } else {
        b[0] as nat + 256 * low_first(b.drop_first())
    }
}

/// The number whose bytes are `b` in the order `order`.
pub open spec fn number_of(b: Seq<u8>, order: ByteOrder) -> nat {
    match order {
        ByteOrder::Little => low_first(b),
        ByteOrder::Big => low_first(b.reverse()),
    }
}

/// The number whose `size` bytes stand in `b` from `at` on.
pub open spec fn number_at(b: Seq<u8>, at: int, size: int, order: ByteOrder) -> nat {
    number_of(b.subrange(at, at + size), order)
}

/// The signed number with the same 32 bits as `n`.
pub open spec fn signed32(n: nat) -> int {
    if n >= 0x8000_0000 {
        n - 0x1_0000_0000
    } else {
        n as int
    }
}

/// 256 to the power `n`.
pub open spec fn pow256(n: nat) -> nat
    decreases n,
{
    if n == 0 {
        1
    } else {
        256 * pow256((n - 1) as nat)
    }
}

/// A number of some bytes is below the power of 256.
pub proof fn lemma_low_first_bound(b: Seq<u8>)
    ensures
        low_first(b) < pow256(b.len()),
    decreases b.len(),
{
    if b.len() > 0 {
        lemma_low_first_bound(b.drop_first());
    }
}

/// The number whose `size` bytes stand in `b` from `at` on.
pub fn read_number(b: &[u8], at: usize, size: usize, order: ByteOrder) -> (r: u64)
    requires
        at + size <= b@.len(),
        size <= 8,
    ensures
        r == number_at(b@, at as int, size as int, order),
        r < pow256(size as nat),
{
    let ghost part = b@.subrange(at as int, at + size);
    let ghost low = match order {
        ByteOrder::Little => part,
        ByteOrder::Big => part.reverse(),
    };
    let total: usize = b.len();
    let mut r: u64 = 0;
    let mut i: usize = size;
    assert(low.skip(size as int) =~= Seq::empty());
    while i > 0
        invariant
            total == b@.len(),
            at + size <= total,
            size <= 8,
            i <= size,
            part == b@.subrange(at as int, at + size),
            low == (match order {
                ByteOrder::Little => part,
                ByteOrder::Big => part.reverse(),
            }),
            r == low_first(low.skip(i as int)),
        decreases i,
    {
        i -= 1;
        let k: usize = match order {
            ByteOrder::Little => i,
            ByteOrder::Big => size - 1 - i,
        };
        let byte: u8 = b[at + k];
        assert(low.skip(i as int)[0] == byte);
        assert(low.skip(i as int).drop_first() =~= low.skip(i + 1));
        proof {
            lemma_low_first_bound(low.skip(i as int));
            lemma_pow256_small(low.skip(i as int).len());
        }
        r = byte as u64 + 256 * r;
    }
    assert(low.skip(0) =~= low);
    proof {
        lemma_low_first_bound(low);
    }
    r
}

/// Eight bytes fit in 64 bits.
proof fn lemma_pow256_small(n: nat)
    requires
        n <= 8,
    ensures
        pow256(n) <= 0x1_0000_0000_0000_0000,
{
    reveal_with_fuel(pow256, 9);
}

/// The number whose two bytes stand in `b` from `at` on.
pub fn read_u16(b: &[u8], at: usize, order: ByteOrder) -> (r: u16)
    requires
        at + 2 <= b@.len(),
    ensures
        r == number_at(b@, at as int, 2, order),
{
    let n: u64 = read_number(b, at, 2, order);
    proof {
        reveal_with_fuel(pow256, 3);
    }
    n as u16
}

/// The signed number whose four bytes stand in `b` from `at` on.
pub fn read_i32(b: &[u8], at: usize, order: ByteOrder) -> (r: i32)
    requires
        at + 4 <= b@.len(),
    ensures
        r == signed32(number_at(b@, at as int, 4, order)),
{
    let n: u64 = read_number(b, at, 4, order);
    proof {
        reveal_with_fuel(pow256, 5);
    }
    if n >= 0x8000_0000 {
        (n as i64 - 0x1_0000_0000) as i32
    } else {
        n as i32
    }
}

} // verus!
