//! Money formatting — one place, so every command renders cents identically.
//! Handles negatives (e.g. credits) too.

use crate::text::{
    all_digits, decimal, decimal_value, digit_char, is_digit, lemma_numbers_are_read_back, push_decimal,
};
use vstd::prelude::*;

verus! {

pub open spec fn magnitude(cents: int) -> nat {
    if cents < 0 {
        (-cents) as nat
    } else {
        cents as nat
    }
}

/// Cents in dollars: a sign where negative, whole dollars, two digits of cents.
pub open spec fn dollars_text(cents: int) -> Seq<char> {
    let c = magnitude(cents);
    (if cents < 0 { seq!['-', '$'] } else { seq!['$'] }) + decimal(c / 100) + seq![
        '.',
        digit_char((c % 100 / 10) as int),
        digit_char((c % 10) as int),
    ]
}

pub fn dollars(cents: i64) -> (text: String)
    ensures
        text@ == dollars_text(cents as int),
{
    dollars_wide(cents as i128)
}

/// `dollars` of an amount that may not fit in 64 bits.
pub(crate) fn dollars_wide(cents: i128) -> (text: String)
    requires
        i128::MIN < cents,
    ensures
        text@ == dollars_text(cents as int),
{
    let mut text = String::new();
    let c: u128;
    if cents < 0 {
        text.push('-');
        c = (-cents) as u128;
    } else {
        c = cents as u128;
    }
    text.push('$');
    push_decimal(&mut text, c / 100);
    text.push('.');
    let tens: u8 = (c % 100 / 10) as u8;
    let ones: u8 = (c % 10) as u8;
    text.push((tens + 48) as char);
    text.push((ones + 48) as char);
    assert(text@ == dollars_text(cents as int));
    text
}

/// `a / b`, rounded toward zero.
pub open spec fn quotient(a: int, b: int) -> int {
    if a < 0 {
        -((-a) / b)
    } else {
        a / b
    }
}

/// `a / b`, rounded toward zero.
pub(crate) fn divide(a: i128, b: i128) -> (q: i128)
    requires
        i128::MIN < a,
        0 < b,
    ensures
        q == quotient(a as int, b as int),
        -magnitude(a as int) <= q <= magnitude(a as int),
{
    let m: u128 = if a < 0 {
        (-a) as u128
    } else {
        a as u128
    };
    let d: u128 = b as u128;
    let r: u128 = m / d;
    assert(r <= m) by (nonlinear_arith)
        requires
            r == m / d,
            d > 0,
    ;
    if a < 0 {
        -(r as i128)
    } else {
        r as i128
    }
}

/// `amount * part / whole`, rounded toward zero.
pub open spec fn share_of(amount: int, part: int, whole: int) -> int {
    if amount < 0 {
        -((-amount) * part / whole)
    } else {
        amount * part / whole
    }
}

/// A part of a whole amounts to no more than the amount.
pub proof fn lemma_share_bounds(amount: int, part: int, whole: int)
    requires
        0 <= part <= whole,
        0 < whole,
    ensures
        amount >= 0 ==> 0 <= share_of(amount, part, whole) <= amount,
        amount < 0 ==> amount <= share_of(amount, part, whole) <= 0,
        share_of(amount, whole, whole) == amount,
        share_of(amount, 0, whole) == 0,
{
    let m = magnitude(amount) as int;
    assert(0 <= m * part <= m * whole) by (nonlinear_arith)
        requires
            0 <= part <= whole,
            0 <= m,
    ;
    assert(m * part / whole <= m && 0 <= m * part / whole) by (nonlinear_arith)
        requires
            0 <= m * part <= m * whole,
            0 < whole,
    ;
    assert(m * whole / whole == m) by (nonlinear_arith)
        requires
            0 < whole,
    ;
    assert(0int / whole == 0) by (nonlinear_arith)
        requires
            0 < whole,
    ;
    assert(m * 0 == 0) by (nonlinear_arith);
}

/// A greater part amounts to at least as much.
pub proof fn lemma_share_grows(amount: int, less: int, more: int, whole: int)
    requires
        amount >= 0,
        0 <= less <= more,
        0 < whole,
    ensures
        share_of(amount, less, whole) <= share_of(amount, more, whole),
{
    assert(amount * less <= amount * more) by (nonlinear_arith)
        requires
            0 <= less <= more,
            0 <= amount,
    ;
    let a = amount * less;
    let b = amount * more;
    assert(a / whole <= b / whole) by (nonlinear_arith)
        requires
            a <= b,
            0 < whole,
    ;
}

pub(crate) fn share(amount: i64, part: usize, whole: usize) -> (cents: i64)
    requires
        part <= whole,
        0 < whole,
    ensures
        cents == share_of(amount as int, part as int, whole as int),
{
    proof {
        lemma_share_bounds(amount as int, part as int, whole as int);
    }
    let m: u128 = if amount < 0 {
        (-(amount as i128)) as u128
    } else {
        amount as u128
    };
    assert(m * part <= 0x8000_0000_0000_0000 * 0xffff_ffff_ffff_ffff) by (nonlinear_arith)
        requires
            m <= 0x8000_0000_0000_0000,
            part <= 0xffff_ffff_ffff_ffff,
    ;
    let s: i128 = (m * part as u128 / whole as u128) as i128;
    if amount < 0 {
        (-s) as i64
    } else {
        s as i64
    }
}

/// An amount is written with all its cents: the digits before and after the point are
/// the number of cents, two of them after it, with a sign only where it is negative.
pub proof fn lemma_every_cent_is_written(cents: int)
    ensures
        ({
            let text = dollars_text(cents);
            let head = if cents < 0 { 2int } else { 1int };
            let n = text.len() as int;
            let digits = text.subrange(head, n - 3) + text.subrange(n - 2, n);
            &&& n >= head + 4
            &&& text[head - 1] == '$' && text[n - 3] == '.'
            &&& cents < 0 ==> text[0] == '-'
            &&& all_digits(digits)
            &&& decimal_value(digits) == magnitude(cents)
        }),
{
    let c = magnitude(cents);
    let text = dollars_text(cents);
    let head = if cents < 0 { 2int } else { 1int };
    let n = text.len() as int;
    let whole = decimal(c / 100);
    let (a, b) = (digit_char((c % 100 / 10) as int), digit_char((c % 10) as int));
    lemma_numbers_are_read_back(c / 100);
    assert(text.subrange(head, n - 3) == whole);
    assert(text.subrange(n - 2, n) == seq![a, b]);
    let digits = whole + seq![a, b];
    assert(digits.drop_last() == whole.push(a));
    assert(whole.push(a).drop_last() == whole);
    assert(decimal_value(whole.push(a)) == (c / 100) * 10 + c % 100 / 10);
    assert(decimal_value(digits) == decimal_value(digits.drop_last()) * 10 + c % 10);
    assert forall|i: int| 0 <= i < digits.len() implies is_digit(#[trigger] digits[i]) by {
        if i < whole.len() {
            assert(is_digit(whole[i]));
        }
    }
}

} // verus!
