//! Decimal numbers as text, and integers of a fixed width.

use vstd::prelude::*;

use crate::text::chars_of;

verus! {

/// A decimal digit.
pub open spec fn digit(c: char) -> bool {
    '0' <= c <= '9'
}

/// Only decimal digits, and at least one.
pub open spec fn digits(s: Seq<char>) -> bool {
    s.len() > 0 && forall|i: int| 0 <= i < s.len() ==> digit(#[trigger] s[i])
}

/// The number that a sequence of decimal digits stands for.
pub open spec fn value_of(s: Seq<char>) -> int
    decreases s.len(),
{
    if s.len() == 0 {
        0
    } else {
        10 * value_of(s.drop_last()) + (s.last() as int - '0' as int)
    }
}

/// The number that `s` stands for, written as an optional `+` and digits, where it is at most
/// `max`.
pub open spec fn unsigned_value(s: Seq<char>, max: int) -> Option<int> {
    let body = if s.len() > 0 && s[0] == '+' {
        s.drop_first()
    } else {
        s
    };
    if digits(body) && value_of(body) <= max {
        Some(value_of(body))
    } else {
        None
    }
}

/// The number that `s` stands for, written as an optional sign and digits, where it fits in 32
/// bits.
pub open spec fn i32_value(s: Seq<char>) -> Option<int> {
    if s.len() > 0 && s[0] == '-' {
        let body = s.drop_first();
        if digits(body) && value_of(body) <= 0x8000_0000 {
            Some(-value_of(body))
        } else {
            None
        }
    } else {
        unsigned_value(s, i32::MAX as int)
    }
}

/// The digit that stands for `d`, between 0 and 9.
pub open spec fn digit_char(d: int) -> char {
    ('0' as int + d) as char
}

/// The decimal digits of `n`, without leading zeros.
pub open spec fn decimal(n: nat) -> Seq<char>
    decreases n,
{
    if n < 10 {
        seq![digit_char(n as int)]
    } else {
        decimal(n / 10).push(digit_char((n % 10) as int))
    }
}

/// `n` in decimal digits, after a `-` where it is negative.
pub open spec fn signed_decimal(n: int) -> Seq<char> {
    if n < 0 {
        seq!['-'] + decimal((-n) as nat)
    } else {
        decimal(n as nat)
    }
}

/// The 32-bit integer that equals `n` up to a multiple of 2 to the 32nd.
pub open spec fn wrap_i32(n: int) -> int {
    (n + 0x8000_0000) % 0x1_0000_0000 - 0x8000_0000
}

/// A number does not shrink when digits are added to it.
proof fn lemma_value_grows(s: Seq<char>, n: int)
    requires
        digits(s),
        0 <= n <= s.len(),
    ensures
        0 <= value_of(s.take(n)) <= value_of(s),
    decreases s.len() - n,
{
    if n == s.len() {
        assert(s.take(n) =~= s);
        lemma_value_nonnegative(s);
    } else {
        lemma_value_grows(s, n + 1);
        assert(s.take(n + 1).drop_last() =~= s.take(n));
        assert(digit(s[n]));
        lemma_value_nonnegative(s.take(n));
    }
}

/// Digits stand for a number that is not negative.
proof fn lemma_value_nonnegative(s: Seq<char>)
    requires
        forall|i: int| 0 <= i < s.len() ==> digit(#[trigger] s[i]),
    ensures
        value_of(s) >= 0,
    decreases s.len(),
{
    if s.len() > 0 {
        assert(digit(s[s.len() - 1]));
        lemma_value_nonnegative(s.drop_last());
    }
}

/// The digits of `n` stand for `n`.
pub proof fn lemma_decimal(n: nat)
    ensures
        digits(decimal(n)),
        value_of(decimal(n)) == n,
    decreases n,
{
    if n < 10 {
        let s = decimal(n);
        assert(s.drop_last() =~= Seq::<char>::empty());
        assert(value_of(s.drop_last()) == 0);
        assert(digit(s[0]));
    } else {
        lemma_decimal(n / 10);
        let s = decimal(n);
        assert(s.drop_last() =~= decimal(n / 10));
        assert forall|i: int| 0 <= i < s.len() implies digit(#[trigger] s[i]) by {
            if i < s.len() - 1 {
                assert(s[i] == decimal(n / 10)[i]);
            }
        }
    }
}

/// Reading the digits of a number gives back the number, where it is at most `max`.
pub proof fn law_decimal_reads_back(n: nat, max: int)
    ensures
        unsigned_value(decimal(n), max) == (if n <= max {
            Some(n as int)
        } else {
            None::<int>
        }),
{
    lemma_decimal(n);
    assert(digit(decimal(n)[0]));
}

/// The number that the digits of `x` from `from` on stand for, where there are only digits and
/// the number is at most `max`.
fn digits_value(x: &Vec<char>, from: usize, max: u64) -> (r: Option<u64>)
    requires
        from <= x@.len(),
    ensures
        r == (if digits(x@.skip(from as int)) && value_of(x@.skip(from as int)) <= max {
            Some(value_of(x@.skip(from as int)) as u64)
        } else {
            None
        }),
{
    let ghost s = x@.skip(from as int);
    if from == x.len() {
        return None;
    }
    let mut i: usize = from;
    let mut total: Option<u64> = Some(0);
    assert(s.take(0) =~= Seq::<char>::empty());
    while i < x.len()
        invariant
            from < x@.len(),
            from <= i <= x@.len(),
            s == x@.skip(from as int),
            forall|j: int| 0 <= j < i - from ==> digit(#[trigger] s[j]),
            value_of(s.take(i - from)) >= 0,
            match total {
                Some(v) => v <= max && v == value_of(s.take(i - from)),
                None => value_of(s.take(i - from)) > max,
            },
        decreases x@.len() - i,
    {
        let c: char = x[i];
        assert(s[i - from] == c);
        if c < '0' || c > '9' {
            assert(!digit(s[i - from]));
            return None;
        }
        assert(s.take(i - from + 1).drop_last() =~= s.take(i - from));
        total = match total {
            Some(v) => {
                let next: u128 = (v as u128) * 10 + ((c as u32) - ('0' as u32)) as u128;
                if next <= max as u128 {
                    Some(next as u64)
                } else {
                    None
                }
            },
            None => None,
        };
        i += 1;
    }
    assert(s.take(i - from) =~= s);
    total
}

/// The number that `s` stands for, written as an optional `+` and digits, where it is at most
/// `max`.
pub fn parse_unsigned(s: &str, max: u64) -> (r: Option<u64>)
    ensures
        match r {
            Some(v) => unsigned_value(s@, max as int) == Some(v as int),
            None => unsigned_value(s@, max as int) is None,
        },
{
    let x: Vec<char> = chars_of(s);
    parse_unsigned_chars(&x, max)
}

/// The same for a vector of characters.
fn parse_unsigned_chars(x: &Vec<char>, max: u64) -> (r: Option<u64>)
    ensures
        match r {
            Some(v) => unsigned_value(x@, max as int) == Some(v as int),
            None => unsigned_value(x@, max as int) is None,
        },
{
    let from: usize = if x.len() > 0 && x[0] == '+' {
        1
    } else {
        0
    };
    assert(x@.skip(0) =~= x@);
    assert(x@.len() > 0 ==> x@.skip(1) =~= x@.drop_first());
    let r: Option<u64> = digits_value(x, from, max);
    proof {
        let s = x@.skip(from as int);
        if digits(s) {
            lemma_value_grows(s, s.len() as int);
            assert(s.take(s.len() as int) =~= s);
        }
    }
    r
}

/// The number that the characters `x` stand for, written as an optional sign and digits, where
/// it fits in 32 bits.
pub fn parse_i32_chars(x: &Vec<char>) -> (r: Option<i32>)
    ensures
        match r {
            Some(v) => i32_value(x@) == Some(v as int),
            None => i32_value(x@) is None,
        },
{
    if x.len() > 0 && x[0] == '-' {
        assert(x@.skip(1) =~= x@.drop_first());
        let magnitude: Option<u64> = digits_value(x, 1, 0x8000_0000);
        proof {
            let s = x@.skip(1);
            if digits(s) {
                lemma_value_grows(s, s.len() as int);
                assert(s.take(s.len() as int) =~= s);
            }
        }
        match magnitude {
            Some(m) => Some((-(m as i64)) as i32),
            None => None,
        }
    } else {
        match parse_unsigned_chars(x, i32::MAX as u64) {
            Some(m) => Some(m as i32),
            None => None,
        }
    }
}

/// The number that `s` stands for, written as an optional sign and digits, where it fits in 32
/// bits.
pub fn parse_i32(s: &str) -> (r: Option<i32>)
    ensures
        match r {
            Some(v) => i32_value(s@) == Some(v as int),
            None => i32_value(s@) is None,
        },
{
    let x: Vec<char> = chars_of(s);
    parse_i32_chars(&x)
}

/// The digit that stands for `d`.
fn digit_text(d: u64) -> (r: &'static str)
    requires
        d < 10,
    ensures
        r@ == seq![digit_char(d as int)],
{
    proof {
        reveal_strlit("0");
        reveal_strlit("1");
        reveal_strlit("2");
        reveal_strlit("3");
        reveal_strlit("4");
        reveal_strlit("5");
        reveal_strlit("6");
        reveal_strlit("7");
        reveal_strlit("8");
        reveal_strlit("9");
    }
    let r: &'static str = match d {
        0 => "0",
        1 => "1",
        2 => "2",
        3 => "3",
        4 => "4",
        5 => "5",
        6 => "6",
        7 => "7",
        8 => "8",
        _ => "9",
    };
    assert(r@ =~= seq![digit_char(d as int)]);
    r
}

/// The decimal digits of `n`.
pub fn decimal_text(n: u64) -> (r: String)
    ensures
        r@ == decimal(n as nat),
    decreases n,
{
    if n < 10 {
        digit_text(n).to_owned()
    } else {
        let mut r: String = decimal_text(n / 10);
        r.append(digit_text(n % 10));
        assert(r@ =~= decimal(n as nat));
        r
    }
}

/// `n` in decimal digits, after a `-` where it is negative.
pub fn i32_text(n: i32) -> (r: String)
    ensures
        r@ == signed_decimal(n as int),
{
    if n < 0 {
        proof {
            reveal_strlit("-");
        }
        let mut r: String = "-".to_owned();
        r.append(decimal_text((-(n as i64)) as u64).as_str());
        assert(r@ =~= signed_decimal(n as int));
        r
    } else {
        decimal_text(n as u64)
    }
}

/// `base` plus `n` in 32 bits, without regard to what does not fit.
pub fn wrapping_sum(base: i32, n: usize) -> (r: i32)
    ensures
        r == wrap_i32(base + n),
{
    let sum: i128 = base as i128 + n as i128;
    let low: i128 = (sum + 0x8000_0000) % 0x1_0000_0000;
    (low - 0x8000_0000) as i32
}

} // verus!
