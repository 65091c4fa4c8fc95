//! Decimal rendering of process identifiers.
//!
//! The tree output prints each identifier in base ten. The spec functions
//! here say, character by character, what that text is, and the executable
//! functions are proved to produce exactly it.

use vstd::prelude::*;

verus! {

/// The character for one decimal digit.
pub open spec fn digit_char(d: nat) -> char {
    if d == 0 {
        '0'
    } else if d == 1 {
        '1'
    } else if d == 2 {
        '2'
    } else if d == 3 {
        '3'
    } else if d == 4 {
        '4'
    } else if d == 5 {
        '5'
    } else if d == 6 {
        '6'
    } else if d == 7 {
        '7'
    } else if d == 8 {
        '8'
    } else {
        '9'
    }
}

/// The base-ten text of a natural number: most significant digit first,
/// no leading zeros (a lone `'0'` for zero).
pub open spec fn dec_nat(n: nat) -> Seq<char>
    decreases n,
{
    if n < 10 {
        seq![digit_char(n)]
    } else {
        dec_nat(n / 10).push(digit_char(n % 10))
    }
}

/// The base-ten text of a signed identifier: a leading `'-'` for a
/// negative value, then the digits of its magnitude.
pub open spec fn dec_i32(p: i32) -> Seq<char> {
    if p < 0 {
        seq!['-'] + dec_nat((-(p as int)) as nat)
    } else {
        dec_nat(p as nat)
    }
}

/// Appends the character of one digit to `s`.
fn push_digit(s: &mut String, d: u32)
    requires
        d < 10,
    ensures
        final(s)@ == old(s)@.push(digit_char(d as nat)),
{
    proof {
        reveal_strlit("0");
        reveal_strlit("1");
        reveal_strlit("2");
        reveal_strlit("3");
        reveal_strlit("4");
        reveal_strlit("5");
        reveal_strlit("6");
        reveal_strlit("7");
        reveal_strlit("8");
        reveal_strlit("9");
    }
    match d {
        0 => s.append("0"),
        1 => s.append("1"),
        2 => s.append("2"),
        3 => s.append("3"),
        4 => s.append("4"),
        5 => s.append("5"),
        6 => s.append("6"),
        7 => s.append("7"),
        8 => s.append("8"),
        _ => s.append("9"),
    }
    assert(final(s)@ =~= old(s)@.push(digit_char(d as nat)));
}

/// Appends the base-ten text of `n` to `s`.
fn append_dec_u32(s: &mut String, n: u32)
    ensures
        final(s)@ == old(s)@ + dec_nat(n as nat),
    decreases n,
{
    if n < 10 {
        push_digit(s, n);
        assert(final(s)@ =~= old(s)@ + dec_nat(n as nat));
    } else {
        append_dec_u32(s, n / 10);
        push_digit(s, n % 10);
        assert(final(s)@ =~= old(s)@ + dec_nat(n as nat));
    }
}

/// Appends the base-ten text of the identifier `p` to `s`.
pub fn append_dec_i32(s: &mut String, p: i32)
    ensures
        final(s)@ == old(s)@ + dec_i32(p),
{
    if p < 0 {
        proof {
            reveal_strlit("-");
        }
        s.append("-");
        let m64: i64 = -(p as i64);
        assert(0 <= m64 <= u32::MAX);
        let m: u32 = m64 as u32;
        append_dec_u32(s, m);
        assert(final(s)@ =~= old(s)@ + dec_i32(p));
    } else {
        append_dec_u32(s, p as u32);
    }
}

} // verus!
