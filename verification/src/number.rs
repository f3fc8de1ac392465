//! Decimal numerals.
//!
//! A numeral is an optional sign, `+` or `-`, and after it one decimal digit
//! or more. It stands for a number if that number fits in an `i64`.

use vstd::prelude::*;
use vstd::std_specs::iter::IteratorSpec;
use crate::chars::is_digit;

verus! {

/// The number that the digit `c` stands for.
pub open spec fn digit_value(c: char) -> int {
    c as int - '0' as int
}

/// The number that `digits` spell in base ten, the empty sequence spelling
/// zero.
pub open spec fn digits_value(digits: Seq<char>) -> int
    decreases digits.len(),
{
    if digits.len() == 0 {
        0
    } else {
        10 * digits_value(digits.drop_last()) + digit_value(digits.last())
    }
}

/// Whether every character of `text` is a decimal digit.
pub open spec fn all_digits(text: Seq<char>) -> bool {
    forall|i: int| 0 <= i < text.len() ==> is_digit(#[trigger] text[i])
}

/// Whether `text` starts with a sign.
pub open spec fn is_signed(text: Seq<char>) -> bool {
    text.len() > 0 && (text[0] == '-' || text[0] == '+')
}

/// The number that the numeral `text` stands for, if it is a numeral and the
/// number fits in an `i64`.
pub open spec fn parse_decimal(text: Seq<char>) -> Option<int> {
    let digits = if is_signed(text) {
        text.skip(1)
    } else {
        text
    };
    let value = if is_signed(text) && text[0] == '-' {
        -digits_value(digits)
    } else {
        digits_value(digits)
    };
    if digits.len() > 0 && all_digits(digits) && i64::MIN <= value <= i64::MAX {
        Some(value)
    } else {
        None
    }
}

/// Digits spell no negative number, and more digits spell no smaller one.
pub proof fn lemma_digits_value_grows(digits: Seq<char>, n: int)
    requires
        all_digits(digits),
        0 <= n <= digits.len(),
    ensures
        0 <= digits_value(digits.take(n)) <= digits_value(digits),
    decreases digits.len() - n,
{
    lemma_digits_value_nonnegative(digits.take(n));
    if n < digits.len() {
        lemma_digits_value_grows(digits, n + 1);
        assert(digits.take(n + 1).drop_last() == digits.take(n));
    } else {
        assert(digits.take(n) == digits);
    }
}

/// Digits spell no negative number.
pub proof fn lemma_digits_value_nonnegative(digits: Seq<char>)
    requires
        all_digits(digits),
    ensures
        0 <= digits_value(digits),
    decreases digits.len(),
{
    if digits.len() > 0 {
        lemma_digits_value_nonnegative(digits.drop_last());
    }
}

/// Reads `text` as a decimal numeral.
///
/// Returns the number, or `None` where `text` is no numeral (it is empty, it
/// is a sign alone, or it holds anything but digits after the optional sign)
/// or spells a number that no `i64` holds.
pub fn parse_integer(text: &str) -> (value: Option<i64>)
    ensures
        value matches Some(number) ==> parse_decimal(text@) == Some(number as int),
        value is None ==> parse_decimal(text@) is None,
{
    broadcast use vstd::string::group_string_axioms;

    let mut rest = text.chars();
    let (negative, signed) = match rest.next() {
        None => {
            return None;
        },
        Some(first) => (first == '-', first == '-' || first == '+'),
    };
    if !signed {
        // The first character is no sign: it is read again, as the first digit.
        rest = text.chars();
    }
    let ghost digits = if signed {
        text@.skip(1)
    } else {
        text@
    };
    let limit: u128 = if negative {
        0x8000_0000_0000_0000
    } else {
        0x7fff_ffff_ffff_ffff
    };
    let mut magnitude: u128 = 0;
    let mut empty = true;
    let ghost mut count: int = 0;
    loop
        invariant
            negative == (is_signed(text@) && text@[0] == '-'),
            digits == if is_signed(text@) { text@.skip(1) } else { text@ },
            limit == if negative { 0x8000_0000_0000_0000u128 } else { 0x7fff_ffff_ffff_ffffu128 },
            0 <= count <= digits.len(),
            empty == (count == 0),
            rest.remaining() == digits.skip(count),
            all_digits(digits.take(count)),
            magnitude == digits_value(digits.take(count)),
            magnitude <= limit,
        ensures
            empty == (digits.len() == 0),
            all_digits(digits),
            magnitude == digits_value(digits),
            magnitude <= limit,
        decreases digits.len() - count,
    {
        match rest.next() {
            None => {
                assert(digits.take(count) == digits);
                break ;
            },
            Some(c) => {
                let ghost more = digits.take(count + 1);
                assert(more.drop_last() == digits.take(count));
                assert(more.last() == c);
                if !('0' <= c && c <= '9') {
                    assert(!is_digit(digits[count]));
                    return None;
                }
                let next: u128 = magnitude * 10 + (c as u128 - '0' as u128);
                assert(next == digits_value(more));
                assert(all_digits(more));
                if next > limit {
                    proof {
                        if all_digits(digits) {
                            lemma_digits_value_grows(digits, count + 1);
                        }
                    }
                    return None;
                }
                magnitude = next;
                empty = false;
                proof {
                    count = count + 1;
                }
            },
        }
    }
    if empty {
        return None;
    }
    if negative {
        Some((0 - magnitude as i128) as i64)
    } else {
        Some(magnitude as i64)
    }
}

} // verus!
