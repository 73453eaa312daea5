//! Numbers in decimal.

use vstd::arithmetic::div_mod::lemma_div_denominator;
use vstd::arithmetic::power::{lemma_pow_positive, pow};
use vstd::prelude::*;
use vstd::string::*;

verus! {

/// The decimal digit `d`.
pub open spec fn digit(d: nat) -> char {
    (('0' as u32) + d) as char
}

/// `n` in decimal, without leading zeros.
pub open spec fn decimal(n: nat) -> Seq<char>
    decreases n,
{
    if n < 10 {
        seq![digit(n)]
    } else {
        decimal(n / 10).push(digit(n % 10))
    }
}

/// `n` in decimal, with a minus sign before it if it is negative.
pub open spec fn signed_decimal(n: int) -> Seq<char> {
    if n < 0 {
        seq!['-'] + decimal((-n) as nat)
    } else {
        decimal(n as nat)
    }
}

fn digit_text(d: u8) -> (text: &'static str)
    requires
        d < 10,
    ensures
        text@ == seq![digit(d as nat)],
{
    proof {
        reveal_strlit("0");
        reveal_strlit("1");
        reveal_strlit("2");
        reveal_strlit("3");
        reveal_strlit("4");
        reveal_strlit("5");
        reveal_strlit("6");
        reveal_strlit("7");
        reveal_strlit("8");
        reveal_strlit("9");
    }
    match d {
        0 => "0",
        1 => "1",
        2 => "2",
        3 => "3",
        4 => "4",
        5 => "5",
        6 => "6",
        7 => "7",
        8 => "8",
        _ => "9",
    }
}

/// Appends `n` in decimal to `out`.
pub fn push_decimal(out: &mut String, n: u128)
    ensures
        final(out)@ == old(out)@ + decimal(n as nat),
    decreases n,
{
    if n >= 10 {
        push_decimal(out, n / 10);
    }
    out.append(digit_text((n % 10) as u8));
    assert(out@ =~= old(out)@ + decimal(n as nat));
}

/// Appends `n` in decimal to `out`.
pub fn push_signed(out: &mut String, n: i32)
    ensures
        final(out)@ == old(out)@ + signed_decimal(n as int),
{
    if n < 0 {
        proof {
            reveal_strlit("-");
        }
        out.append("-");
        push_decimal(out, (-(n as i64)) as u128);
        assert(out@ =~= old(out)@ + signed_decimal(n as int));
    } else {
        push_decimal(out, n as u128);
    }
}

/// A number is written in as many digits as it needs, each of them the digit of its place.
pub proof fn law_decimal_digits(n: nat, i: int)
    ensures
        decimal(n).len() > 0,
        n < pow(10, decimal(n).len()),
        decimal(n).len() > 1 ==> pow(10, (decimal(n).len() - 1) as nat) <= n,
        0 <= i < decimal(n).len() ==> decimal(n)[i] as int == '0' as int + (n as int / pow(
            10,
            (decimal(n).len() - 1 - i) as nat,
        )) % 10,
    decreases n,
{
    reveal(pow);
    let len = decimal(n).len();
    if n < 10 {
        reveal_with_fuel(pow, 2);
        assert(pow(10, 0) == 1);
    } else {
        law_decimal_digits(n / 10, i);
        let shorter = decimal(n / 10).len();
        assert(len == shorter + 1);
        assert(pow(10, len) == 10 * pow(10, shorter));
        assert(pow(10, shorter) == 10 * pow(10, (shorter - 1) as nat));
        if shorter == 1 {
            assert(pow(10, 0) == 1);
        }
        if 0 <= i < len - 1 {
            let e = (len - 2 - i) as nat;
            lemma_pow_positive(10, e);
            lemma_div_denominator(n as int, 10, pow(10, e));
            assert(pow(10, (len - 1 - i) as nat) == 10 * pow(10, e));
        } else if i == len - 1 {
            assert(pow(10, 0) == 1);
        }
    }
}

/// No two numbers are written alike.
pub proof fn law_numbers_are_told_apart(a: nat, b: nat)
    requires
        decimal(a) == decimal(b),
    ensures
        a == b,
    decreases a,
{
    law_decimal_digits(a, 0);
    law_decimal_digits(b, 0);
    if a >= 10 && b >= 10 {
        assert(decimal(a).drop_last() =~= decimal(a / 10));
        assert(decimal(b).drop_last() =~= decimal(b / 10));
        law_numbers_are_told_apart(a / 10, b / 10);
        assert(decimal(a).last() == digit(a % 10) && decimal(b).last() == digit(b % 10));
        assert(digit(a % 10) as int == '0' as int + a % 10);
        assert(digit(b % 10) as int == '0' as int + b % 10);
    } else if a >= 10 {
        law_decimal_digits(a / 10, 0);
        assert(decimal(b).len() == 1);
    } else if b >= 10 {
        law_decimal_digits(b / 10, 0);
        assert(decimal(a).len() == 1);
    } else {
        assert(decimal(a)[0] == digit(a) && decimal(b)[0] == digit(b));
        assert(digit(a) as int == '0' as int + a);
        assert(digit(b) as int == '0' as int + b);
    }
}

/// A number below zero is written as a minus sign and the number without it.
pub proof fn law_signs(n: int)
    ensures
        n >= 0 ==> signed_decimal(n) == decimal(n as nat),
        n < 0 ==> signed_decimal(n).len() > 0 && signed_decimal(n)[0] == '-' && signed_decimal(
            n,
        ).skip(1) == decimal((-n) as nat),
{
    if n < 0 {
        assert(signed_decimal(n).skip(1) =~= decimal((-n) as nat));
    }
}

} // verus!
