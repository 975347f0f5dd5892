//! Character classification and small string-building helpers shared by the
//! parsers.

use vstd::prelude::*;

verus! {

/// Unicode whitespace, the set recognised by the cursor's trimming operations.
pub open spec fn is_space_char(c: char) -> bool {
    let x = c as u32;
    ||| x == 32
    ||| x == 9
    ||| x == 10
    ||| x == 11
    ||| x == 12
    ||| x == 13
    ||| x == 0x85
    ||| x == 0xA0
    ||| x == 0x1680
    ||| (0x2000 <= x && x <= 0x200A)
    ||| x == 0x2028
    ||| x == 0x2029
    ||| x == 0x202F
    ||| x == 0x205F
    ||| x == 0x3000
}

pub fn is_space(c: char) -> (b: bool)
    ensures
        b == is_space_char(c),
{
    let x = c as u32;
    x == 32 || x == 9 || x == 10 || x == 11 || x == 12 || x == 13 || x == 0x85 || x == 0xA0 || x
        == 0x1680 || (0x2000 <= x && x <= 0x200A) || x == 0x2028 || x == 0x2029 || x == 0x202F || x
        == 0x205F || x == 0x3000
}

pub open spec fn is_digit_char(c: char) -> bool {
    48 <= c as u32 && c as u32 <= 57
}

pub fn is_digit(c: char) -> (b: bool)
    ensures
        b == is_digit_char(c),
{
    let x = c as u32;
    48 <= x && x <= 57
}

/// The numeric value of a decimal digit.
pub open spec fn digit_val(c: char) -> int {
    c as u32 - 48
}

/// ASCII lower-casing on code points; other characters are left alone.
pub open spec fn lower_u32(x: u32) -> u32 {
    if 65 <= x && x <= 90 {
        (x + 32) as u32
    } else {
        x
    }
}

/// Case-insensitive character equality (ASCII folding).
pub open spec fn char_eq_nc(a: char, b: char) -> bool {
    lower_u32(a as u32) == lower_u32(b as u32)
}

pub fn chars_eq_no_case(a: char, b: char) -> (r: bool)
    ensures
        r == char_eq_nc(a, b),
{
    let au = a as u32;
    let bu = b as u32;
    let al: u32 = if 65 <= au && au <= 90 {
        au + 32
    } else {
        au
    };
    let bl: u32 = if 65 <= bu && bu <= 90 {
        bu + 32
    } else {
        bu
    };
    al == bl
}

/// Relies on `String::push` from std: appends exactly one character.
#[verifier::external_body]
pub(crate) fn push_char(s: &mut String, c: char)
    ensures
        final(s)@ == old(s)@.push(c),
{
    s.push(c);
}

/// The character of one decimal digit.
pub open spec fn digit_char(d: int) -> char {
    if d == 0 {
        '0'
    } else if d == 1 {
        '1'
    } else if d == 2 {
        '2'
    } else if d == 3 {
        '3'
    } else if d == 4 {
        '4'
    } else if d == 5 {
        '5'
    } else if d == 6 {
        '6'
    } else if d == 7 {
        '7'
    } else if d == 8 {
        '8'
    } else {
        '9'
    }
}

/// The decimal rendering of a number, most significant digit first.
pub open spec fn dec_rep(n: int) -> Seq<char>
    decreases n,
{
    if n < 10 {
        seq![digit_char(n)]
    } else {
        dec_rep(n / 10) + seq![digit_char(n % 10)]
    }
}

fn digit_char_of(d: usize) -> (c: char)
    requires
        d < 10,
    ensures
        c == digit_char(d as int),
{
    match d {
        0 => '0',
        1 => '1',
        2 => '2',
        3 => '3',
        4 => '4',
        5 => '5',
        6 => '6',
        7 => '7',
        8 => '8',
        _ => '9',
    }
}

/// Append the decimal rendering of `n`.
pub(crate) fn push_decimal(s: &mut String, n: usize)
    ensures
        final(s)@ == old(s)@ + dec_rep(n as int),
    decreases n,
{
    if n < 10 {
        push_char(s, digit_char_of(n));
    } else {
        push_decimal(s, n / 10);
        push_char(s, digit_char_of(n % 10));
    }
}

/// `n` copies of one character; none when `n` is not positive.
pub open spec fn repeat_char(c: char, n: int) -> Seq<char> {
    if n <= 0 {
        Seq::empty()
    } else {
        Seq::new(n as nat, |i: int| c)
    }
}

/// Append `n` copies of `c`.
pub(crate) fn push_repeat(s: &mut String, c: char, n: usize)
    ensures
        final(s)@ == old(s)@ + repeat_char(c, n as int),
{
    let mut i: usize = 0;
    while i < n
        invariant
            0 <= i <= n,
            s@ == old(s)@ + repeat_char(c, i as int),
        decreases n - i,
    {
        push_char(s, c);
        proof {
            assert(old(s)@ + repeat_char(c, i as int + 1) =~= (old(s)@ + repeat_char(
                c,
                i as int,
            )).push(c));
        }
        i = i + 1;
    }
    proof {
        assert(old(s)@ + repeat_char(c, 0) =~= old(s)@);
    }
}

} // verus!
