//! Reading decimal numbers out of text.

use vstd::prelude::*;
use vstd::string::*;

verus! {

/// Whether the character is one of the ten digits.
pub open spec fn is_digit(c: char) -> bool {
    c == '0' || c == '1' || c == '2' || c == '3' || c == '4' || c == '5' || c == '6' || c == '7'
        || c == '8' || c == '9'
}

/// The value of a digit.
pub open spec fn digit_value(c: char) -> nat
    recommends
        is_digit(c),
{
    if c == '1' {
        1
    } else if c == '2' {
        2
    } else if c == '3' {
        3
    } else if c == '4' {
        4
    } else if c == '5' {
        5
    } else if c == '6' {
        6
    } else if c == '7' {
        7
    } else if c == '8' {
        8
    } else if c == '9' {
        9
    } else {
        0
    }
}

/// Whether the text is made of digits, at least one.
pub open spec fn all_digits(text: Seq<char>) -> bool {
    text.len() > 0 && forall|i: int| 0 <= i < text.len() ==> is_digit(#[trigger] text[i])
}

/// The number that a run of digits writes, leading zeros allowed.
pub open spec fn digits_value(digits: Seq<char>) -> nat
    decreases digits.len(),
{
    if digits.len() == 0 {
        0
    } else {
        digits_value(digits.drop_last()) * 10 + digit_value(digits.last())
    }
}

/// The number that a text writes: digits with an optional `+` or `-` in
/// front.  Any other text writes no number.
pub open spec fn number_value(text: Seq<char>) -> Option<int> {
    if text.len() > 0 && text[0] == '-' {
        if all_digits(text.skip(1)) {
            Some(-(digits_value(text.skip(1)) as int))
        } else {
            None
        }
    } else if text.len() > 0 && text[0] == '+' {
        if all_digits(text.skip(1)) {
            Some(digits_value(text.skip(1)) as int)
        } else {
            None
        }
    } else if all_digits(text) {
        Some(digits_value(text) as int)
    } else {
        None
    }
}

/// The number that a text writes where no `-` is accepted: digits with an
/// optional `+` in front.
pub open spec fn unsigned_value(text: Seq<char>) -> Option<int> {
    if text.len() > 0 && text[0] == '-' {
        None
    } else {
        number_value(text)
    }
}

/// A run of digits writes at least what any front part of it writes.
pub proof fn lemma_digits_value_grows(digits: Seq<char>, front: int)
    requires
        0 <= front <= digits.len(),
    ensures
        digits_value(digits.take(front)) <= digits_value(digits),
    decreases digits.len() - front,
{
    if front == digits.len() {
        assert(digits.take(front) =~= digits);
    } else {
        lemma_digits_value_grows(digits.drop_last(), front);
        assert(digits.drop_last().take(front) =~= digits.take(front));
    }
}

fn digit_of(c: char) -> (digit: Option<u64>)
    ensures
        match digit {
            Some(d) => is_digit(c) && d == digit_value(c) && d <= 9,
            None => !is_digit(c),
        },
{
    if c == '0' {
        Some(0)
    } else if c == '1' {
        Some(1)
    } else if c == '2' {
        Some(2)
    } else if c == '3' {
        Some(3)
    } else if c == '4' {
        Some(4)
    } else if c == '5' {
        Some(5)
    } else if c == '6' {
        Some(6)
    } else if c == '7' {
        Some(7)
    } else if c == '8' {
        Some(8)
    } else if c == '9' {
        Some(9)
    } else {
        None
    }
}

/// Reads the digits that the text holds from position `from` on, up to the
/// number `limit`.
pub(crate) fn parse_digits(text: &str, from: usize, limit: u64) -> (value: Option<u64>)
    requires
        from <= text@.len(),
    ensures
        match value {
            Some(v) => all_digits(text@.skip(from as int)) && digits_value(
                text@.skip(from as int),
            ) == v && v <= limit,
            None => !all_digits(text@.skip(from as int)) || digits_value(text@.skip(from as int))
                > limit,
        },
{
    let ghost digits = text@.skip(from as int);
    let len = text.unicode_len();
    if from == len {
        return None;
    }
    let mut value: u64 = 0;
    let mut i: usize = from;
    assert(digits.take(0) =~= Seq::<char>::empty());
    while i < len
        invariant
            from <= i <= len,
            len == text@.len(),
            digits == text@.skip(from as int),
            value == digits_value(digits.take(i - from)),
            value <= limit,
            forall|k: int| 0 <= k < i - from ==> is_digit(#[trigger] digits[k]),
        decreases len - i,
    {
        let c = text.get_char(i);
        proof {
            assert(digits[i - from] == c);
            assert(digits.take(i - from + 1).drop_last() =~= digits.take(i - from));
            assert(digits.take(i - from + 1).last() == c);
        }
        match digit_of(c) {
            None => {
                return None;
            },
            Some(d) => {
                let grown: u128 = value as u128 * 10 + d as u128;
                if grown > limit as u128 {
                    proof {
                        lemma_digits_value_grows(digits, i - from + 1);
                    }
                    return None;
                }
                value = grown as u64;
            },
        }
        i += 1;
    }
    assert(digits.take(len - from) =~= digits);
    Some(value)
}

/// Reads a number: digits with an optional sign in front.  Gives nothing
/// for any other text, and for a number that an `i64` cannot hold.
pub fn parse_number(text: &str) -> (number: Option<i64>)
    ensures
        match number {
            Some(n) => number_value(text@) == Some(n as int),
            None => match number_value(text@) {
                Some(v) => v < i64::MIN || v > i64::MAX,
                None => true,
            },
        },
{
    let len = text.unicode_len();
    if len == 0 {
        return None;
    }
    let first = text.get_char(0);
    if first == '-' {
        match parse_digits(text, 1, 0x8000_0000_0000_0000u64) {
            Some(magnitude) => {
                if magnitude == 0x8000_0000_0000_0000u64 {
                    Some(i64::MIN)
                } else {
                    Some(-(magnitude as i64))
                }
            },
            None => None,
        }
    } else if first == '+' {
        match parse_digits(text, 1, 0x7fff_ffff_ffff_ffffu64) {
            Some(magnitude) => Some(magnitude as i64),
            None => None,
        }
    } else {
        assert(text@.skip(0) =~= text@);
        match parse_digits(text, 0, 0x7fff_ffff_ffff_ffffu64) {
            Some(magnitude) => Some(magnitude as i64),
            None => None,
        }
    }
}

/// Reads a number that a `u32` holds: digits with an optional `+` in front.
pub fn parse_u32(text: &str) -> (number: Option<u32>)
    ensures
        match number {
            Some(n) => unsigned_value(text@) == Some(n as int),
            None => match unsigned_value(text@) {
                Some(v) => v > u32::MAX,
                None => true,
            },
        },
{
    let len = text.unicode_len();
    if len == 0 {
        return None;
    }
    let first = text.get_char(0);
    if first == '-' {
        None
    } else if first == '+' {
        match parse_digits(text, 1, 0xffff_ffffu64) {
            Some(magnitude) => Some(magnitude as u32),
            None => None,
        }
    } else {
        assert(text@.skip(0) =~= text@);
        match parse_digits(text, 0, 0xffff_ffffu64) {
            Some(magnitude) => Some(magnitude as u32),
            None => None,
        }
    }
}

} // verus!
