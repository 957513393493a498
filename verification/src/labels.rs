//! The labels the interface shows for the AI's settings: the thinking time in seconds,
//! and the exploration constant, whose slider counts in twentieths.

use vstd::prelude::*;
use vstd::string::StringExecFns;

verus! {

pub open spec fn digit_char(d: int) -> char {
    if d == 0 {
        '0'
    } else if d == 1 {
        '1'
    } else if d == 2 {
        '2'
    } else if d == 3 {
        '3'
    } else if d == 4 {
        '4'
    } else if d == 5 {
        '5'
    } else if d == 6 {
        '6'
    } else if d == 7 {
        '7'
    } else if d == 8 {
        '8'
    } else {
        '9'
    }
}

/// The decimal digits of `n`, most significant first, without leading zeros.
pub open spec fn decimal(n: nat) -> Seq<char>
    decreases n,
{
    if n < 10 {
        seq![digit_char(n as int)]
    } else {
        decimal(n / 10).push(digit_char((n % 10) as int))
    }
}

pub(crate) fn digit_str(d: u64) -> (s: &'static str)
    requires
        d < 10,
    ensures
        s@ == seq![digit_char(d as int)],
{
    proof {
        reveal_strlit("0");
        reveal_strlit("1");
        reveal_strlit("2");
        reveal_strlit("3");
        reveal_strlit("4");
        reveal_strlit("5");
        reveal_strlit("6");
        reveal_strlit("7");
        reveal_strlit("8");
        reveal_strlit("9");
    }
    if d == 0 {
        "0"
    } else if d == 1 {
        "1"
    } else if d == 2 {
        "2"
    } else if d == 3 {
        "3"
    } else if d == 4 {
        "4"
    } else if d == 5 {
        "5"
    } else if d == 6 {
        "6"
    } else if d == 7 {
        "7"
    } else if d == 8 {
        "8"
    } else {
        "9"
    }
}

/// Appends the decimal digits of `n`.
pub(crate) fn push_decimal(s: &mut String, n: u64)
    ensures
        final(s)@ == old(s)@ + decimal(n as nat),
    decreases n,
{
    if n >= 10 {
        push_decimal(s, n / 10);
    }
    s.append(digit_str(n % 10));
    assert(final(s)@ =~= old(s)@ + decimal(n as nat));
}

/// The thinking time in seconds, as a plain decimal number.
pub fn fmt_ai_time(seconds: u32) -> (r: String)
    ensures
        r@ == decimal(seconds as nat),
{
    let mut s = String::new();
    push_decimal(&mut s, seconds as u64);
    assert(s@ =~= decimal(seconds as nat));
    s
}

/// The exploration constant a slider value stands for, `ticks / 20`, with exactly two
/// decimals (the value is a multiple of 0.05, so the two decimals are exact).
pub fn fmt_ai_eve(ticks: u32) -> (r: String)
    ensures
        r@ == decimal((ticks * 5 / 100) as nat) + seq!['.'] + seq![
            digit_char((ticks * 5 % 100) / 10),
            digit_char((ticks * 5) % 10),
        ],
{
    let hundredths: u64 = ticks as u64 * 5;
    let mut s = String::new();
    push_decimal(&mut s, hundredths / 100);
    proof {
        reveal_strlit(".");
    }
    s.append(".");
    let frac = hundredths % 100;
    s.append(digit_str(frac / 10));
    s.append(digit_str(frac % 10));
    assert(s@ =~= decimal((ticks * 5 / 100) as nat) + seq!['.'] + seq![
        digit_char((ticks * 5 % 100) / 10),
        digit_char((ticks * 5) % 10),
    ]);
    s
}

} // verus!
