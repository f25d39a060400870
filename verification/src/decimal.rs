//! Decimal rendering of integers, used for the parent-identifier field of a
//! stored item.

use vstd::prelude::*;

verus! {

/// The character of one decimal digit.
pub open spec fn dec_digit(d: int) -> char {
    if d == 0 {
        '0'
    } else if d == 1 {
        '1'
    } else if d == 2 {
        '2'
    } else if d == 3 {
        '3'
    } else if d == 4 {
        '4'
    } else if d == 5 {
        '5'
    } else if d == 6 {
        '6'
    } else if d == 7 {
        '7'
    } else if d == 8 {
        '8'
    } else {
        '9'
    }
}

/// The decimal digits of a non-negative number, most significant first.
pub open spec fn dec_of(n: int) -> Seq<char>
    decreases n,
{
    if n < 10 {
        seq![dec_digit(n)]
    } else {
        dec_of(n / 10).push(dec_digit(n % 10))
    }
}

/// The decimal rendering of a signed number: a minus sign before the digits
/// of its magnitude when it is negative.
pub open spec fn spec_i64_str(v: int) -> Seq<char> {
    if v < 0 {
        seq!['-'] + dec_of(-v)
    } else {
        dec_of(v)
    }
}

/// One decimal digit as a string.
fn digit_str(d: u64) -> (s: String)
    requires
        d < 10,
    ensures
        s@ == seq![dec_digit(d as int)],
{
    let c: &str = if d == 0 {
        "0"
    } else if d == 1 {
        "1"
    } else if d == 2 {
        "2"
    } else if d == 3 {
        "3"
    } else if d == 4 {
        "4"
    } else if d == 5 {
        "5"
    } else if d == 6 {
        "6"
    } else if d == 7 {
        "7"
    } else if d == 8 {
        "8"
    } else {
        "9"
    };
    proof {
        reveal_strlit("0");
        reveal_strlit("1");
        reveal_strlit("2");
        reveal_strlit("3");
        reveal_strlit("4");
        reveal_strlit("5");
        reveal_strlit("6");
        reveal_strlit("7");
        reveal_strlit("8");
        reveal_strlit("9");
        assert(c@ =~= seq![dec_digit(d as int)]);
    }
    c.to_owned()
}

/// The decimal digits of `n`.
pub fn u64_to_dec(n: u64) -> (s: String)
    ensures
        s@ == dec_of(n as int),
    decreases n,
{
    if n < 10 {
        digit_str(n)
    } else {
        let mut s = u64_to_dec(n / 10);
        let d = digit_str(n % 10);
        s.append(d.as_str());
        proof {
            assert(s@ =~= dec_of(n as int));
        }
        s
    }
}

/// The decimal rendering of `v`, sign included.
pub fn i64_to_dec(v: i64) -> (s: String)
    ensures
        s@ == spec_i64_str(v as int),
{
    if v >= 0 {
        u64_to_dec(v as u64)
    } else {
        let wide: i128 = v as i128;
        let mag: u64 = (-wide) as u64;
        proof {
            assert(mag as int == -(v as int));
        }
        let mut s = String::new();
        proof {
            reveal_strlit("-");
        }
        s.append("-");
        let d = u64_to_dec(mag);
        s.append(d.as_str());
        proof {
            assert("-"@ =~= seq!['-']);
            assert(s@ =~= spec_i64_str(v as int));
        }
        s
    }
}

} // verus!
