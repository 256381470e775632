//! How numbers are written as text and held as bytes.

use vstd::arithmetic::power::{lemma_pow0, pow};
use vstd::prelude::*;

use crate::bytes;
use crate::bytes::ByteOrder;
use crate::numeral;

verus! {

/// At least one character, each between `0` and `9`.
pub open spec fn numeric(s: Seq<char>) -> bool {
    s.len() > 0 && forall|i: int| 0 <= i < s.len() ==> 48 <= (#[trigger] s[i]) as int <= 57
}

/// A digit stands for its distance from `0`, and digits in front of `b.len()` others stand for
/// that power of ten as often as they say.
pub proof fn law_digits_stand_for(a: Seq<char>, b: Seq<char>, c: char)
    ensures
        numeral::value_of(seq![c]) == c as int - 48,
        numeral::value_of(a + b) == numeral::value_of(a) * pow(10, b.len()) + numeral::value_of(b),
    decreases b.len(),
{
    assert(seq![c].drop_last() =~= Seq::<char>::empty());
    assert(numeral::value_of(Seq::<char>::empty()) == 0);
    if b.len() == 0 {
        lemma_pow0(10);
        assert(a + b =~= a);
        assert(numeral::value_of(b) == 0);
    } else {
        law_digits_stand_for(a, b.drop_last(), c);
        assert((a + b).drop_last() =~= a + b.drop_last());
        assert((a + b).last() == b.last());
        vstd::arithmetic::power::lemma_pow_adds(10, 1, (b.len() - 1) as nat);
        vstd::arithmetic::power::lemma_pow1(10);
        let v = numeral::value_of(a);
        let p = pow(10, (b.len() - 1) as nat);
        assert(10 * (v * p) == v * (10 * p)) by (nonlinear_arith);
    }
}

/// A text of digits is the number they stand for, also after a plus sign, where that is at most
/// the limit. Every other text is no number.
pub proof fn law_unsigned(s: Seq<char>, max: int)
    ensures
        numeric(s) && numeral::value_of(s) <= max ==> numeral::unsigned_value(s, max) == Some(
            numeral::value_of(s),
        ) && numeral::unsigned_value(seq!['+'] + s, max) == Some(numeral::value_of(s)),
        numeric(s) && numeral::value_of(s) > max ==> numeral::unsigned_value(s, max) is None
            && numeral::unsigned_value(seq!['+'] + s, max) is None,
        !numeric(s) ==> numeral::unsigned_value(seq!['+'] + s, max) is None,
        !numeric(s) && (s.len() == 0 || s[0] != '+') ==> numeral::unsigned_value(s, max) is None,
{
    assert((seq!['+'] + s).drop_first() =~= s);
    lemma_numeric(s);
    if numeric(s) {
        assert(numeral::digit(s[0]));
    }
}

/// `numeral::digits` holds of the same texts as `numeric`.
proof fn lemma_numeric(s: Seq<char>)
    ensures
        numeral::digits(s) <==> numeric(s),
{
    if numeral::digits(s) {
        assert forall|i: int| 0 <= i < s.len() implies 48 <= (#[trigger] s[i]) as int <= 57 by {
            assert(numeral::digit(s[i]));
        }
    }
    if numeric(s) {
        assert forall|i: int| 0 <= i < s.len() implies numeral::digit(#[trigger] s[i]) by {
            assert(48 <= s[i] as int <= 57);
        }
    }
}

/// A text of digits is a signed number where it fits in 32 bits, also after a sign, where a minus
/// turns it round. Every other text is no number.
pub proof fn law_signed(s: Seq<char>)
    ensures
        numeric(s) && numeral::value_of(s) <= 2147483647 ==> numeral::i32_value(s) == Some(
            numeral::value_of(s),
        ) && numeral::i32_value(seq!['+'] + s) == Some(numeral::value_of(s)),
        numeric(s) && numeral::value_of(s) > 2147483647 ==> numeral::i32_value(s) is None
            && numeral::i32_value(seq!['+'] + s) is None,
        numeric(s) && numeral::value_of(s) <= 2147483648 ==> numeral::i32_value(seq!['-'] + s)
            == Some(-numeral::value_of(s)),
        numeric(s) && numeral::value_of(s) > 2147483648 ==> numeral::i32_value(seq!['-'] + s)
            is None,
        !numeric(s) ==> numeral::i32_value(seq!['+'] + s) is None && numeral::i32_value(
            seq!['-'] + s,
        ) is None,
        !numeric(s) && (s.len() == 0 || (s[0] != '+' && s[0] != '-')) ==> numeral::i32_value(
            s,
        ) is None,
{
    assert((seq!['+'] + s).drop_first() =~= s);
    assert((seq!['-'] + s).drop_first() =~= s);
    law_unsigned(s, 2147483647);
    lemma_numeric(s);
    if numeric(s) {
        assert(numeral::digit(s[0]));
    }
}

/// A number in decimal has only digits, none of them a zero in front but that of 0 itself, and
/// stands for the number; a negative one has a minus and the digits of its opposite.
pub proof fn law_decimal(n: nat)
    ensures
        numeric(numeral::decimal(n)),
        numeral::decimal(n)[0] == '0' ==> numeral::decimal(n) == seq!['0'],
        numeral::value_of(numeral::decimal(n)) == n,
        numeral::signed_decimal(n as int) == numeral::decimal(n),
        n > 0 ==> numeral::signed_decimal(-n) == seq!['-'] + numeral::decimal(n),
    decreases n,
{
    numeral::lemma_decimal(n);
    lemma_numeric(numeral::decimal(n));
    if n >= 10 {
        law_decimal(n / 10);
        assert(numeral::decimal(n)[0] == numeral::decimal(n / 10)[0]);
        if numeral::decimal(n / 10)[0] == '0' {
            assert(seq!['0'].drop_last() =~= Seq::<char>::empty());
            assert(numeral::value_of(Seq::<char>::empty()) == 0);
            assert(numeral::value_of(seq!['0']) == 0);
        }
    }
}

/// Wrapping to 32 bits keeps a number that fits, and any other up to a multiple of 2 to the 32nd.
pub proof fn law_wrap(n: int)
    ensures
        -2147483648 <= numeral::wrap_i32(n) <= 2147483647,
        (numeral::wrap_i32(n) - n) % 4294967296 == 0,
        -2147483648 <= n <= 2147483647 ==> numeral::wrap_i32(n) == n,
{
}

/// The bytes of a number: with the lowest first each counts 256 times the one before it, with the
/// highest first it is the other way round.
pub proof fn law_bytes(b: Seq<u8>, at: int)
    requires
        0 <= at,
    ensures
        at + 2 <= b.len() ==> bytes::number_at(b, at, 2, ByteOrder::Little) == b[at] + 256 * b[at
            + 1] && bytes::number_at(b, at, 2, ByteOrder::Big) == 256 * b[at] + b[at + 1],
        at + 4 <= b.len() ==> bytes::number_at(b, at, 4, ByteOrder::Little) == b[at] + 256 * b[at
            + 1] + 65536 * b[at + 2] + 16777216 * b[at + 3] && bytes::number_at(
            b,
            at,
            4,
            ByteOrder::Big,
        ) == 16777216 * b[at] + 65536 * b[at + 1] + 256 * b[at + 2] + b[at + 3],
{
    if at + 2 <= b.len() {
        let s = b.subrange(at, at + 2);
        lemma_low_first_pair(s);
        lemma_low_first_pair(s.reverse());
    }
    if at + 4 <= b.len() {
        let s = b.subrange(at, at + 4);
        lemma_low_first_four(s);
        lemma_low_first_four(s.reverse());
    }
}

/// The eight bytes of a number are its two halves of four.
pub proof fn law_eight_bytes(b: Seq<u8>, at: int)
    requires
        0 <= at,
        at + 8 <= b.len(),
    ensures
        bytes::number_at(b, at, 8, ByteOrder::Little) == bytes::number_at(
            b,
            at,
            4,
            ByteOrder::Little,
        ) + 4294967296 * bytes::number_at(b, at + 4, 4, ByteOrder::Little),
        bytes::number_at(b, at, 8, ByteOrder::Big) == 4294967296 * bytes::number_at(
            b,
            at,
            4,
            ByteOrder::Big,
        ) + bytes::number_at(b, at + 4, 4, ByteOrder::Big),
{
    let s = b.subrange(at, at + 8);
    let x = b.subrange(at, at + 4);
    let y = b.subrange(at + 4, at + 8);
    lemma_low_first_eight(s);
    lemma_low_first_eight(s.reverse());
    assert(s.subrange(0, 4) =~= x);
    assert(s.subrange(4, 8) =~= y);
    assert(s.reverse().subrange(0, 4) =~= y.reverse());
    assert(s.reverse().subrange(4, 8) =~= x.reverse());
    assert(b.subrange(at + 4, at + 4 + 4) =~= y);
}

/// Two bytes, the lowest first.
proof fn lemma_low_first_pair(s: Seq<u8>)
    requires
        s.len() == 2,
    ensures
        bytes::low_first(s) == s[0] + 256 * s[1],
{
    let t = s.drop_first();
    assert(t.drop_first() =~= Seq::<u8>::empty());
    assert(bytes::low_first(t.drop_first()) == 0);
    assert(bytes::low_first(t) == t[0]);
}

/// Four bytes, the lowest first.
proof fn lemma_low_first_four(s: Seq<u8>)
    requires
        s.len() == 4,
    ensures
        bytes::low_first(s) == s[0] + 256 * s[1] + 65536 * s[2] + 16777216 * s[3],
{
    let t = s.drop_first();
    let u = t.drop_first();
    lemma_low_first_pair(u);
    assert(bytes::low_first(t) == t[0] + 256 * bytes::low_first(u));
}

/// Eight bytes, the lowest first, are two numbers of four.
proof fn lemma_low_first_eight(s: Seq<u8>)
    requires
        s.len() == 8,
    ensures
        bytes::low_first(s) == bytes::low_first(s.subrange(0, 4)) + 4294967296 * bytes::low_first(
            s.subrange(4, 8),
        ),
{
    lemma_low_first_four(s.subrange(0, 4));
    let a = s.drop_first();
    let b = a.drop_first();
    let c = b.drop_first();
    let d = c.drop_first();
    assert(d =~= s.subrange(4, 8));
    assert(bytes::low_first(c) == c[0] + 256 * bytes::low_first(d));
    assert(bytes::low_first(b) == b[0] + 256 * bytes::low_first(c));
    assert(bytes::low_first(a) == a[0] + 256 * bytes::low_first(b));
    assert(bytes::low_first(s) == s[0] + 256 * bytes::low_first(a));
}

/// The signed number with the bits of an unsigned one of 32 bits is the same up to 2 to the 32nd.
pub proof fn law_signed32(n: nat)
    requires
        n < 4294967296,
    ensures
        -2147483648 <= bytes::signed32(n) <= 2147483647,
        bytes::signed32(n) == n || bytes::signed32(n) == n - 4294967296,
{
}

} // verus!
