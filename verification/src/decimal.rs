//! Decimal numerals.

use vstd::prelude::*;

verus! {

/// The numeral of a digit.
pub open spec fn digit_char(d: int) -> char {
    if d == 0 {
        '0'
    } else if d == 1 {
        '1'
    } else if d == 2 {
        '2'
    } else if d == 3 {
        '3'
    } else if d == 4 {
        '4'
    } else if d == 5 {
        '5'
    } else if d == 6 {
        '6'
    } else if d == 7 {
        '7'
    } else if d == 8 {
        '8'
    } else {
        '9'
    }
}

/// The decimal numeral of `n`, most significant digit first.
pub open spec fn numeral(n: nat) -> Seq<char>
    decreases n,
{
    if n < 10 {
        seq![digit_char(n as int)]
    } else {
        numeral(n / 10).push(digit_char(n as int % 10))
    }
}

/// The numeral of a digit, as a string.
fn digit(d: usize) -> (s: &'static str)
    requires
        d < 10,
    ensures
        s@ == seq![digit_char(d as int)],
{
    proof {
        reveal_strlit("0");
        reveal_strlit("1");
        reveal_strlit("2");
        reveal_strlit("3");
        reveal_strlit("4");
        reveal_strlit("5");
        reveal_strlit("6");
        reveal_strlit("7");
        reveal_strlit("8");
        reveal_strlit("9");
    }
    match d {
        0 => "0",
        1 => "1",
        2 => "2",
        3 => "3",
        4 => "4",
        5 => "5",
        6 => "6",
        7 => "7",
        8 => "8",
        _ => "9",
    }
}

/// Appends the decimal numeral of `n`.
pub fn push_numeral(text: &mut String, n: usize)
    ensures
        final(text)@ == old(text)@ + numeral(n as nat),
    decreases n,
{
    let ghost before = text@;
    if n >= 10 {
        push_numeral(text, n / 10);
        text.append(digit(n % 10));
        proof {
            assert(text@ =~= before + numeral(n as nat));
        }
    } else {
        text.append(digit(n));
    }
}

/// One digit more behind a numeral is ten times the number and the digit; a
/// number below ten is its digit alone.
pub proof fn numerals_grow_by_a_digit(n: nat, d: nat)
    requires
        d < 10,
    ensures
        numeral(d) == seq![(('0' as u32 + d) as u32) as char],
        n > 0 ==> numeral(10 * n + d) == numeral(n).push((('0' as u32 + d) as u32) as char),
{
    if n > 0 {
        assert((10 * n + d) / 10 == n && (10 * n + d) % 10 == d);
    }
}

} // verus!
