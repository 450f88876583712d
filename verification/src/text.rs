//! Numbers and labels as text.

use vstd::prelude::*;

verus! {

/// `String::push` appends one character.
pub assume_specification[ String::push ](s: &mut String, c: char)
    ensures
        final(s)@ == old(s)@.push(c),
;

/// The character of a decimal digit.
pub open spec fn digit_char(d: int) -> char {
    (48 + d) as char
}

/// The decimal digits of a number, without leading zeros.
pub open spec fn decimal(n: nat) -> Seq<char>
    decreases n,
{
    if n < 10 {
        seq![digit_char(n as int)]
    } else {
        decimal(n / 10).push(digit_char(n as int % 10))
    }
}

/// The decimal digits of a number, at least two of them.
pub open spec fn two_digits(n: nat) -> Seq<char> {
    if n < 10 {
        seq!['0'] + decimal(n)
    } else {
        decimal(n)
    }
}

/// Minutes and seconds, with a colon between them.
pub open spec fn clock(seconds: nat) -> Seq<char> {
    two_digits(seconds / 60) + seq![':'] + two_digits(seconds % 60)
}

/// Appends the decimal digits of `n`.
pub fn push_decimal(s: &mut String, n: u128)
    ensures
        final(s)@ == old(s)@ + decimal(n as nat),
    decreases n,
{
    let ghost before = s@;
    if n >= 10 {
        push_decimal(s, n / 10);
    }
    let d: u8 = (n % 10) as u8;
    s.push((48u8 + d) as char);
    assert(s@ =~= before + decimal(n as nat));
}

fn push_two_digits(s: &mut String, n: u128)
    ensures
        final(s)@ == old(s)@ + two_digits(n as nat),
{
    let ghost before = s@;
    if n < 10 {
        s.push('0');
    }
    push_decimal(s, n);
    assert(s@ =~= before + two_digits(n as nat));
}

/// The decimal digits of `n`.
pub fn decimal_text(n: u128) -> (s: String)
    ensures
        s@ == decimal(n as nat),
{
    let mut s = String::new();
    push_decimal(&mut s, n);
    assert(s@ =~= decimal(n as nat));
    s
}

/// Elapsed seconds as minutes and seconds, two digits each at least.
pub fn clock_text(seconds: u64) -> (s: String)
    ensures
        s@ == clock(seconds as nat),
{
    let mut s = String::new();
    push_two_digits(&mut s, (seconds / 60) as u128);
    s.push(':');
    push_two_digits(&mut s, (seconds % 60) as u128);
    assert(s@ =~= clock(seconds as nat));
    s
}

/// The two texts, one after the other.
pub fn joined(a: &str, b: &str) -> (s: String)
    ensures
        s@ == a@ + b@,
{
    let mut s = a.to_owned();
    s.append(b);
    s
}

/// A label, and a number after it.
pub fn counted(label: &str, n: usize) -> (s: String)
    ensures
        s@ == label@ + decimal(n as nat),
{
    let mut s = label.to_owned();
    push_decimal(&mut s, n as u128);
    s
}

/// The label of the timer.
pub fn timer_label(seconds: u64) -> (s: String)
    ensures
        s@ == "⏱ "@ + clock(seconds as nat),
{
    let clock = clock_text(seconds);
    joined("⏱ ", clock.as_str())
}

} // verus!
