//! Decimal notation: from digits to a number and back.

use crate::lexis::{is_digit, DIGIT_0, DIGIT_9};
use crate::text::ascii;
use vstd::prelude::*;
use vstd::string::*;
use vstd::utf8::is_ascii_chars;

verus! {

/// The number that `digits` spell in decimal notation.
pub open spec fn decimal(digits: Seq<u8>) -> nat
    decreases digits.len(),
{
    if digits.len() == 0 {
        0
    } else {
        decimal(digits.drop_last()) * 10 + (digits.last() - DIGIT_0) as nat
    }
}

/// Whether `digits` holds decimal digits only.
pub open spec fn all_digits(digits: Seq<u8>) -> bool {
    forall|i: int| 0 <= i < digits.len() ==> is_digit(#[trigger] digits[i])
}

/// The value of an integer literal: `digits` must be one or more decimal
/// digits and spell a number that a signed 64-bit integer holds.
pub open spec fn integer_value(digits: Seq<u8>) -> Option<int> {
    if digits.len() > 0 && all_digits(digits) && decimal(digits) <= i64::MAX {
        Some(decimal(digits) as int)
    } else {
        None
    }
}

/// More digits never spell a smaller number.
pub proof fn lemma_decimal_grows(digits: Seq<u8>, n: int)
    requires
        all_digits(digits),
        0 <= n <= digits.len(),
    ensures
        decimal(digits.take(n)) <= decimal(digits),
    decreases digits.len() - n,
{
    if n < digits.len() {
        let longer = digits.take(n + 1);
        assert(longer.drop_last() =~= digits.take(n));
        assert(is_digit(digits[n]));
        lemma_decimal_grows(digits, n + 1);
    } else {
        assert(digits.take(n) =~= digits);
    }
}

/// The value of the integer literal `digits`, or `None` where they are no
/// integer literal or spell a number that 64 bits do not hold.
pub fn parse_integer(digits: &[u8]) -> (r: Option<i64>)
    ensures
        match integer_value(digits@) {
            Some(n) => r == Some(n as i64),
            None => r is None,
        },
{
    if digits.len() == 0 {
        return None;
    }
    let mut value: i64 = 0;
    let mut i: usize = 0;
    while i < digits.len()
        invariant
            i <= digits.len(),
            all_digits(digits@.take(i as int)),
            value == decimal(digits@.take(i as int)),
        decreases digits.len() - i,
    {
        let b = digits[i];
        if b < DIGIT_0 || b > DIGIT_9 {
            return None;
        }
        let d: i64 = (b - DIGIT_0) as i64;
        proof {
            assert(digits@.take(i + 1).drop_last() =~= digits@.take(i as int));
            assert(digits@.take(i + 1).last() == b);
        }
        if value > (i64::MAX - d) / 10 {
            proof {
                if all_digits(digits@) {
                    lemma_decimal_grows(digits@, i + 1);
                }
            }
            return None;
        }
        value = value * 10 + d;
        i = i + 1;
    }
    proof {
        assert(digits@.take(i as int) =~= digits@);
    }
    Some(value)
}

/// The character for the digit `d`, which is less than ten.
pub open spec fn digit_char(d: nat) -> char {
    ((DIGIT_0 + d) as u8) as char
}

/// The decimal notation of `n`, without leading zeros.
pub open spec fn decimal_text(n: nat) -> Seq<char>
    decreases n,
{
    if n < 10 {
        seq![digit_char(n)]
    } else {
        decimal_text(n / 10).push(digit_char(n % 10))
    }
}

/// The decimal notation of a number is one or more digits, and it spells
/// that number.
pub proof fn lemma_decimal_text(n: nat)
    ensures
        decimal_text(n).len() > 0,
        is_ascii_chars(decimal_text(n)),
        all_digits(ascii(decimal_text(n))),
        decimal(ascii(decimal_text(n))) == n,
    decreases n,
{
    let text = decimal_text(n);
    if n < 10 {
        assert(ascii(text) =~= seq![(DIGIT_0 + n) as u8]);
        assert(ascii(text).drop_last() =~= Seq::<u8>::empty());
        assert(decimal(ascii(text).drop_last()) == 0);
    } else {
        let front = decimal_text(n / 10);
        lemma_decimal_text(n / 10);
        assert(text == front.push(digit_char(n % 10)));
        assert(ascii(text) =~= ascii(front).push((DIGIT_0 + n % 10) as u8));
        assert(ascii(text).drop_last() =~= ascii(front));
        assert forall|i: int| 0 <= i < ascii(text).len() implies is_digit(
            #[trigger] ascii(text)[i],
        ) by {
            if i < front.len() {
                assert(ascii(text)[i] == ascii(front)[i]);
            }
        }
        assert forall|i: int| 0 <= i < text.len() implies '\0' <= #[trigger] text[i]
            <= '\u{7f}' by {
            if i < front.len() {
                assert(text[i] == front[i]);
            }
        }
    }
}

/// The text of the digit `d`.
fn digit_text(d: u64) -> (r: &'static str)
    requires
        d < 10,
    ensures
        r@ == seq![digit_char(d as nat)],
{
    proof {
        reveal_strlit("0");
        reveal_strlit("1");
        reveal_strlit("2");
        reveal_strlit("3");
        reveal_strlit("4");
        reveal_strlit("5");
        reveal_strlit("6");
        reveal_strlit("7");
        reveal_strlit("8");
        reveal_strlit("9");
    }
    if d == 0 {
        "0"
    } else if d == 1 {
        "1"
    } else if d == 2 {
        "2"
    } else if d == 3 {
        "3"
    } else if d == 4 {
        "4"
    } else if d == 5 {
        "5"
    } else if d == 6 {
        "6"
    } else if d == 7 {
        "7"
    } else if d == 8 {
        "8"
    } else {
        "9"
    }
}

/// Appends the decimal notation of `n` to `out`.
pub fn push_decimal(out: &mut String, n: u64)
    ensures
        final(out)@ == old(out)@ + decimal_text(n as nat),
    decreases n,
{
    if n >= 10 {
        push_decimal(out, n / 10);
    }
    out.append(digit_text(n % 10));
    proof {
        if n >= 10 {
            assert(old(out)@ + decimal_text((n / 10) as nat) + seq![digit_char((n % 10) as nat)]
                =~= old(out)@ + decimal_text(n as nat));
        }
    }
}

} // verus!
