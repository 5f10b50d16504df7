//! Writing numbers in decimal.

use vstd::prelude::*;

verus! {

/// The character of a digit.
pub open spec fn digit_char(d: int) -> char {
    if d == 0 {
        '0'
    } else if d == 1 {
        '1'
    } else if d == 2 {
        '2'
    } else if d == 3 {
        '3'
    } else if d == 4 {
        '4'
    } else if d == 5 {
        '5'
    } else if d == 6 {
        '6'
    } else if d == 7 {
        '7'
    } else if d == 8 {
        '8'
    } else {
        '9'
    }
}

/// The digits of a number, without leading zeros.
pub open spec fn digits(n: nat) -> Seq<char>
    decreases n,
{
    if n < 10 {
        seq![digit_char(n as int)]
    } else {
        digits(n / 10).push(digit_char((n % 10) as int))
    }
}

/// The character of a digit.
fn digit(d: u64) -> (c: char)
    requires
        d < 10,
    ensures
        c == digit_char(d as int),
{
    match d {
        0 => '0',
        1 => '1',
        2 => '2',
        3 => '3',
        4 => '4',
        5 => '5',
        6 => '6',
        7 => '7',
        8 => '8',
        _ => '9',
    }
}

/// Appends the digits of a number.
pub fn push_decimal(text: &mut String, n: u64)
    ensures
        final(text)@ == old(text)@ + digits(n as nat),
    decreases n,
{
    let ghost before = text@;
    if n >= 10 {
        push_decimal(text, n / 10);
    }
    text.push(digit(n % 10));
    assert(text@ =~= before + digits(n as nat));
}

/// Appends a text.
pub fn push_text(text: &mut String, more: &str)
    ensures
        final(text)@ == old(text)@ + more@,
{
    let ghost before = text@;
    let chars = crate::text::chars_of(more);
    let mut i: usize = 0;
    assert(before + more@.take(0) =~= before);
    while i < chars.len()
        invariant
            i <= chars@.len(),
            chars@ == more@,
            text@ == before + more@.take(i as int),
        decreases chars@.len() - i,
    {
        text.push(chars[i]);
        i += 1;
        assert(text@ =~= before + more@.take(i as int));
    }
    assert(more@.take(i as int) =~= more@);
}

/// Different numbers have different digits.
pub proof fn digits_injective(a: nat, b: nat)
    requires
        digits(a) == digits(b),
    ensures
        a == b,
    decreases a,
{
    let (x, y) = (digits(a), digits(b));
    digits_not_empty(a);
    digits_not_empty(b);
    if a >= 10 {
        digits_not_empty(a / 10);
        assert(x.len() >= 2);
    }
    if b >= 10 {
        digits_not_empty(b / 10);
        assert(y.len() >= 2);
    }
    assert(x.last() == digit_char((a % 10) as int));
    assert(y.last() == digit_char((b % 10) as int));
    assert(a % 10 == b % 10);
    if a >= 10 && b >= 10 {
        assert(x.drop_last() =~= digits(a / 10));
        assert(y.drop_last() =~= digits(b / 10));
        digits_injective(a / 10, b / 10);
    }
}

/// A number has a digit.
proof fn digits_not_empty(n: nat)
    ensures
        digits(n).len() >= 1,
{
}

} // verus!
