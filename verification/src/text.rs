//! Decimal text for numbers in error messages.

use vstd::prelude::*;
use vstd::string::*;

verus! {

/// The character of decimal digit `d`.
pub open spec fn digit_char(d: nat) -> char {
    (48 + d) as char
}

/// The decimal digits of `v`, most significant first, without leading zeros.
pub open spec fn decimal(v: nat) -> Seq<char>
    decreases v,
{
    if v < 10 {
        seq![digit_char(v)]
    } else {
        decimal(v / 10) + seq![digit_char(v % 10)]
    }
}

fn digit_str(d: u8) -> (s: &'static str)
    requires
        d < 10,
    ensures
        s@ == seq![digit_char(d as nat)],
{
    proof {
        reveal_strlit("0");
        reveal_strlit("1");
        reveal_strlit("2");
        reveal_strlit("3");
        reveal_strlit("4");
        reveal_strlit("5");
        reveal_strlit("6");
        reveal_strlit("7");
        reveal_strlit("8");
        reveal_strlit("9");
    }
    match d {
        0 => "0",
        1 => "1",
        2 => "2",
        3 => "3",
        4 => "4",
        5 => "5",
        6 => "6",
        7 => "7",
        8 => "8",
        _ => "9",
    }
}

/// Append the decimal digits of `v` to `s`.
pub fn push_decimal(s: &mut String, v: u8)
    ensures
        final(s)@ == old(s)@ + decimal(v as nat),
{
    if v >= 100 {
        s.append(digit_str(v / 100));
        s.append(digit_str((v / 10) % 10));
        s.append(digit_str(v % 10));
        proof {
            assert(decimal((v / 10) as nat) == decimal((v / 100) as nat) + seq![digit_char(((v / 10) % 10) as nat)]);
            assert(decimal(v as nat) == decimal((v / 10) as nat) + seq![digit_char((v % 10) as nat)]);
        }
    } else if v >= 10 {
        s.append(digit_str(v / 10));
        s.append(digit_str(v % 10));
        proof {
            assert(decimal(v as nat) == decimal((v / 10) as nat) + seq![digit_char((v % 10) as nat)]);
        }
    } else {
        s.append(digit_str(v));
    }
    assert(s@ =~= old(s)@ + decimal(v as nat));
}

} // verus!
