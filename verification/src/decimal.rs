//! Decimal notation: the number that a run of digits writes, and the digits
//! that write a number.

use crate::text::{all_in, CharClass};
use vstd::prelude::*;

verus! {

/// The number that one digit stands for.
pub open spec fn digit_value(c: char) -> nat {
    (c as int - '0' as int) as nat
}

/// The digit that stands for a number below ten.
pub open spec fn digit_char(d: nat) -> char {
    ('0' as int + d) as char
}

/// The number that `digits` writes in base ten; leading zeros count for nothing.
pub open spec fn decimal_value(digits: Seq<char>) -> nat
    decreases digits.len(),
{
    if digits.len() == 0 {
        0
    } else {
        decimal_value(digits.drop_last()) * 10 + digit_value(digits.last())
    }
}

/// The digits of `n` in base ten, without leading zeros.
pub open spec fn decimal_digits(n: nat) -> Seq<char>
    decreases n,
{
    if n < 10 {
        seq![digit_char(n)]
    } else {
        decimal_digits(n / 10).push(digit_char(n % 10))
    }
}

/// The decimal form of an integer: its digits, after a minus sign if it is negative.
pub open spec fn decimal_text(i: int) -> Seq<char> {
    if i < 0 {
        seq!['-'] + decimal_digits((-i) as nat)
    } else {
        decimal_digits(i as nat)
    }
}

/// A longer run of digits never writes a smaller number than its own beginning.
pub proof fn lemma_decimal_value_grows(digits: Seq<char>, k: int)
    requires
        0 <= k <= digits.len(),
    ensures
        decimal_value(digits.take(k)) <= decimal_value(digits),
    decreases digits.len() - k,
{
    if k < digits.len() {
        lemma_decimal_value_grows(digits, k + 1);
        assert(digits.take(k + 1).drop_last() =~= digits.take(k));
    } else {
        assert(digits.take(k) =~= digits);
    }
}

/// Writing a number and reading the digits back gives the number: the
/// digits of `n` are digits, at least one, and their value is `n`.
pub proof fn law_decimal_round_trip(n: nat)
    ensures
        decimal_digits(n).len() >= 1,
        all_in(decimal_digits(n), CharClass::Digit),
        decimal_value(decimal_digits(n)) == n,
    decreases n,
{
    let digits = decimal_digits(n);
    if n < 10 {
        assert(decimal_value(digits.drop_last()) == 0);
    } else {
        law_decimal_round_trip(n / 10);
        assert(digits.drop_last() =~= decimal_digits(n / 10));
    }
}

/// The number that a text writes, where the text is one or more digits and
/// the number is no more than `i32::MAX`.
pub open spec fn number_of(text: Seq<char>) -> Option<int> {
    if text.len() > 0 && all_in(text, CharClass::Digit) && decimal_value(text) <= i32::MAX {
        Some(decimal_value(text) as int)
    } else {
        None
    }
}

/// Reads a run of digits: its value where `digits` is one or more digits
/// that write a number up to `i32::MAX`, and `None` for every other text.
pub fn parse_decimal(digits: &[char]) -> (value: Option<i32>)
    ensures
        value is Some <==> number_of(digits@) is Some,
        value matches Some(number) ==> number_of(digits@) == Some(number as int),
{
    if digits.len() == 0 {
        return None;
    }
    let mut acc: i64 = 0;
    let mut i: usize = 0;
    while i < digits.len()
        invariant
            i <= digits.len(),
            all_in(digits@.take(i as int), CharClass::Digit),
            0 <= acc <= i32::MAX,
            acc == decimal_value(digits@.take(i as int)),
        decreases digits.len() - i,
    {
        let c = digits[i];
        if !CharClass::Digit.accepts(c) {
            return None;
        }
        let d = (c as u32 - '0' as u32) as i64;
        assert(digits@.take(i + 1).drop_last() =~= digits@.take(i as int));
        let next = acc * 10 + d;
        if next > i32::MAX as i64 {
            proof {
                lemma_decimal_value_grows(digits@, i + 1);
            }
            return None;
        }
        acc = next;
        i += 1;
    }
    assert(digits@.take(i as int) =~= digits@);
    Some(acc as i32)
}

/// Appends the digits of `n` to `out`.
pub fn push_digits(out: &mut String, n: u32)
    ensures
        final(out)@ == old(out)@ + decimal_digits(n as nat),
    decreases n,
{
    if n >= 10 {
        push_digits(out, n / 10);
    }
    let d = (n % 10) as u8;
    out.push((d + 48) as char);
}

/// Appends the decimal form of `value` to `out`.
pub fn push_decimal(out: &mut String, value: i32)
    ensures
        final(out)@ == old(out)@ + decimal_text(value as int),
{
    if value < 0 {
        out.push('-');
        let magnitude = (-(value as i64)) as u32;
        push_digits(out, magnitude);
    } else {
        push_digits(out, value as u32);
    }
}

} // verus!
