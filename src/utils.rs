//! Rendering of sizes as text.
use vstd::prelude::*;
use crate::text::string_of;

verus! {

pub open spec fn digit_char(d: int) -> char {
    if d == 0 {
        '0'
    } else if d == 1 {
        '1'
    } else if d == 2 {
        '2'
    } else if d == 3 {
        '3'
    } else if d == 4 {
        '4'
    } else if d == 5 {
        '5'
    } else if d == 6 {
        '6'
    } else if d == 7 {
        '7'
    } else if d == 8 {
        '8'
    } else {
        '9'
    }
}

/// The decimal digits of `n`, most significant first.
pub open spec fn decimal_of(n: nat) -> Seq<char>
    decreases n,
{
    if n < 10 {
        seq![digit_char(n as int)]
    } else {
        decimal_of(n / 10).push(digit_char((n % 10) as int))
    }
}

/// The unit of a size: the largest of B, KB, MB and GB in which its value stays below 1024.
pub open spec fn unit_level(size: nat) -> nat {
    if size < 1024 {
        0
    } else if size < 1024 * 1024 {
        1
    } else if size < 1024 * 1024 * 1024 {
        2
    } else {
        3
    }
}

pub open spec fn unit_divisor(level: nat) -> nat {
    if level == 0 {
        1
    } else if level == 1 {
        1024
    } else if level == 2 {
        1024 * 1024
    } else {
        1024 * 1024 * 1024
    }
}

pub open spec fn unit_name(level: nat) -> Seq<char> {
    if level == 0 {
        "B"@
    } else if level == 1 {
        "KB"@
    } else if level == 2 {
        "MB"@
    } else {
        "GB"@
    }
}

/// `num / den` rounded to the nearest integer, ties to the even one.
pub open spec fn round_half_even(num: nat, den: nat) -> nat {
    let q = num / den;
    let rem = num % den;
    if 2 * rem > den || (2 * rem == den && q % 2 == 1) {
        q + 1
    } else {
        q
    }
}

/// The size in hundredths of its unit, rounded.
pub open spec fn size_hundredths(size: nat) -> nat {
    round_half_even(size * 100, unit_divisor(unit_level(size)))
}

/// A size with two decimals and its unit, such as `1.50KB`.
pub open spec fn size_text(size: nat) -> Seq<char> {
    let h = size_hundredths(size);
    decimal_of(h / 100) + seq!['.', digit_char(((h % 100) / 10) as int), digit_char((h % 10) as int)]
        + unit_name(unit_level(size))
}

fn digit(d: u128) -> (c: char)
    requires
        d < 10,
    ensures
        c == digit_char(d as int),
{
    if d == 0 {
        '0'
    } else if d == 1 {
        '1'
    } else if d == 2 {
        '2'
    } else if d == 3 {
        '3'
    } else if d == 4 {
        '4'
    } else if d == 5 {
        '5'
    } else if d == 6 {
        '6'
    } else if d == 7 {
        '7'
    } else if d == 8 {
        '8'
    } else {
        '9'
    }
}

/// The decimal digits of `n`.
pub fn decimal(n: u128) -> (r: Vec<char>)
    ensures
        r@ == decimal_of(n as nat),
    decreases n,
{
    if n < 10 {
        vec![digit(n)]
    } else {
        let mut r = decimal(n / 10);
        r.push(digit(n % 10));
        r
    }
}

/// A size with two decimals in the largest unit that keeps its value below 1024.
pub fn pretty_print_size(size: u64) -> (r: String)
    ensures
        r@ == size_text(size as nat),
{
    let (d, unit): (u128, &str) = if size < 1024 {
        (1, "B")
    } else if size < 1024 * 1024 {
        (1024, "KB")
    } else if size < 1024 * 1024 * 1024 {
        (1024 * 1024, "MB")
    } else {
        (1024 * 1024 * 1024, "GB")
    };
    assert(d as nat == unit_divisor(unit_level(size as nat)));
    let num: u128 = size as u128 * 100;
    let q = num / d;
    let rem = num % d;
    let h = if 2 * rem > d || (2 * rem == d && q % 2 == 1) {
        q + 1
    } else {
        q
    };
    assert(h as nat == size_hundredths(size as nat));
    let mut out = decimal(h / 100);
    out.push('.');
    out.push(digit((h % 100) / 10));
    out.push(digit(h % 10));
    let uc = crate::text::chars_of(unit);
    out.extend_from_slice(uc.as_slice());
    assert(uc@ == unit_name(unit_level(size as nat)));
    assert(out@ =~= size_text(size as nat));
    string_of(&out)
}

} // verus!
