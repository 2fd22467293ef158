//! The value of an integer literal.
//!
//! A literal is an optional sign, `+` or `-`, and then at least one decimal
//! digit. It has a value where the number fits a signed 64-bit integer.

use vstd::prelude::*;
use vstd::string::is_ascii_spec_bytes;

verus! {

/// A decimal digit.
pub open spec fn is_digit_char(c: char) -> bool {
    '0' <= c <= '9'
}

/// Characters that are all decimal digits.
pub open spec fn all_digit_chars(s: Seq<char>) -> bool {
    forall|k: int| 0 <= k < s.len() ==> is_digit_char(#[trigger] s[k])
}

/// The number that a decimal digit denotes.
pub open spec fn digit_value(c: char) -> int {
    c as int - '0' as int
}

/// The number that a sequence of decimal digits denotes, most significant
/// digit first. The empty sequence denotes zero.
pub open spec fn decimal_value(digits: Seq<char>) -> int
    decreases digits.len(),
{
    if digits.len() == 0 {
        0
    } else {
        10 * decimal_value(digits.drop_last()) + digit_value(digits.last())
    }
}

/// Whether the text starts with a sign.
pub open spec fn has_sign(text: Seq<char>) -> bool {
    text.len() > 0 && (text[0] == '-' || text[0] == '+')
}

/// The digits of the text: all of it but a leading sign.
pub open spec fn digits_of(text: Seq<char>) -> Seq<char> {
    if has_sign(text) {
        text.skip(1)
    } else {
        text
    }
}

/// The number that the text denotes where it is a sign and digits.
pub open spec fn signed_value(text: Seq<char>) -> int {
    if text.len() > 0 && text[0] == '-' {
        -decimal_value(digits_of(text))
    } else {
        decimal_value(digits_of(text))
    }
}

/// The value of a literal: `Some` exactly where the text is an optional
/// sign and at least one digit, nothing else, and the number it denotes lies
/// between `i64::MIN` and `i64::MAX`.
pub open spec fn literal_value(text: Seq<char>) -> Option<i64> {
    if digits_of(text).len() > 0 && all_digit_chars(digits_of(text)) && i64::MIN <= signed_value(
        text,
    ) <= i64::MAX {
        Some(signed_value(text) as i64)
    } else {
        None
    }
}

/// Digits never denote a negative number, and more digits after a prefix
/// never denote less than the prefix.
pub proof fn lemma_decimal_value_grows(digits: Seq<char>, n: int)
    requires
        all_digit_chars(digits),
        0 <= n <= digits.len(),
    ensures
        0 <= decimal_value(digits.take(n)) <= decimal_value(digits),
    decreases digits.len(),
{
    if n == digits.len() {
        assert(digits.take(n) =~= digits);
        if n > 0 {
            lemma_decimal_value_grows(digits.drop_last(), n - 1);
            assert(digits.drop_last().take(n - 1) =~= digits.drop_last());
            assert(is_digit_char(digits[n - 1]));
        }
    } else {
        lemma_decimal_value_grows(digits.drop_last(), n);
        assert(digits.drop_last().take(n) =~= digits.take(n));
        assert(is_digit_char(digits[digits.len() - 1]));
        lemma_decimal_value_grows(digits.drop_last(), digits.len() - 1);
        assert(digits.drop_last().take(digits.len() - 1) =~= digits.drop_last());
    }
}

/// The value of one more digit after a prefix of the digits.
pub proof fn lemma_decimal_value_step(digits: Seq<char>, n: int)
    requires
        0 <= n < digits.len(),
    ensures
        decimal_value(digits.take(n + 1)) == 10 * decimal_value(digits.take(n)) + digit_value(
            digits[n],
        ),
{
    assert(digits.take(n + 1).drop_last() =~= digits.take(n));
}

const PLUS_SIGN: u8 = 0x2B;
const MINUS_SIGN: u8 = 0x2D;
const DIGIT_ZERO: u8 = 0x30;
const DIGIT_NINE: u8 = 0x39;

/// Converts the text of an integer literal to its value.
pub fn to_i64(text: &str) -> (value: Option<i64>)
    ensures
        value == literal_value(text@),
{
    if !text.is_ascii() {
        proof {
            if digits_of(text@).len() > 0 && all_digit_chars(digits_of(text@)) {
                assert forall|k: int| 0 <= k < text@.len() implies '\0' <= #[trigger] text@[k]
                    <= '\u{7f}' by {
                    if has_sign(text@) && k > 0 {
                        assert(is_digit_char(digits_of(text@)[k - 1]));
                    } else if !has_sign(text@) {
                        assert(is_digit_char(digits_of(text@)[k]));
                    }
                }
            }
        }
        return None;
    }
    let bytes = text.as_bytes();
    proof {
        is_ascii_spec_bytes(text);
    }
    let n: usize = bytes.len();
    assert(n == text@.len());
    assert(forall|k: int| 0 <= k < n ==> bytes@[k] == #[trigger] text@[k] as u8);
    if n == 0 {
        return None;
    }
    let negative = bytes[0] == MINUS_SIGN;
    let first: usize = if negative || bytes[0] == PLUS_SIGN {
        1
    } else {
        0
    };
    let ghost digits = digits_of(text@);
    assert(has_sign(text@) == (first == 1));
    assert(digits.len() == n - first);
    let mut acc: i64 = 0;
    let mut k: usize = first;
    while k < n
        invariant
            first <= k <= n,
            n == bytes@.len(),
            n == text@.len(),
            first <= 1,
            digits == digits_of(text@),
            digits.len() == n - first,
            has_sign(text@) == (first == 1),
            negative == (text@[0] == '-'),
            forall|j: int| 0 <= j < n ==> bytes@[j] == #[trigger] text@[j] as u8,
            text.is_ascii(),
            all_digit_chars(digits.take(k - first)),
            acc == if negative {
                -decimal_value(digits.take(k - first))
            } else {
                decimal_value(digits.take(k - first))
            },
        decreases n - k,
    {
        let b: u8 = bytes[k];
        let ghost c = text@[k as int];
        assert(c == digits[k - first]);
        assert(b == c as u8);
        assert('\0' <= c <= '\u{7f}');
        if b < DIGIT_ZERO || b > DIGIT_NINE {
            assert(!is_digit_char(digits[k - first]));
            return None;
        }
        assert(is_digit_char(c));
        let d: i128 = (b - DIGIT_ZERO) as i128;
        assert(d == digit_value(c));
        let wide: i128 = if negative {
            acc as i128 * 10 - d
        } else {
            acc as i128 * 10 + d
        };
        proof {
            lemma_decimal_value_step(digits, k - first);
            assert forall|j: int| 0 <= j < k - first + 1 implies is_digit_char(
                #[trigger] digits.take(k - first + 1)[j],
            ) by {
                if j < k - first {
                    assert(is_digit_char(digits.take(k - first)[j]));
                }
            }
        }
        if wide > i64::MAX as i128 || wide < i64::MIN as i128 {
            proof {
                if all_digit_chars(digits) {
                    lemma_decimal_value_grows(digits, k - first + 1);
                }
            }
            return None;
        }
        acc = wide as i64;
        k += 1;
    }
    assert(digits.take(n - first) =~= digits);
    if first == n {
        return None;
    }
    Some(acc)
}

} // verus!
