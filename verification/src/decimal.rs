//! Base-10 integer literals in the range of `i32`.
//!
//! A text is such a literal when it is an optional `+` or `-` followed by one
//! or more ASCII digits and nothing else, and the number it writes fits in
//! 32 signed bits.  Nothing is trimmed: a blank anywhere makes the text no
//! literal.

use vstd::prelude::*;
use vstd::string::*;

verus! {

/// `c` is one of the ten ASCII digits.
pub open spec fn is_digit(c: char) -> bool {
    '0' <= c && c <= '9'
}

/// The number that the digit `c` writes.
pub open spec fn digit_value(c: char) -> int {
    c as int - 48
}

/// Every character of `text` is an ASCII digit.
pub open spec fn all_digits(text: Seq<char>) -> bool {
    forall|i: int| 0 <= i < text.len() ==> is_digit(#[trigger] text[i])
}

/// The number that a run of digits writes, most significant digit first.
/// The empty run writes 0.
pub open spec fn digits_value(digits: Seq<char>) -> int
    decreases digits.len(),
{
    if digits.len() == 0 {
        0
    } else {
        10 * digits_value(digits.drop_last()) + digit_value(digits.last())
    }
}

/// `text` starts with a sign.
pub open spec fn has_sign(text: Seq<char>) -> bool {
    text.len() > 0 && (text[0] == '+' || text[0] == '-')
}

/// `text` without its sign, if it has one.
pub open spec fn unsigned_part(text: Seq<char>) -> Seq<char> {
    if has_sign(text) {
        text.skip(1)
    } else {
        text
    }
}

/// The number that `text` writes when it is a sign and digits.
pub open spec fn signed_value(text: Seq<char>) -> int {
    if text.len() > 0 && text[0] == '-' {
        -digits_value(unsigned_part(text))
    } else {
        digits_value(unsigned_part(text))
    }
}

/// The integer that `text` denotes, or `None` where `text` is no base-10
/// literal of an `i32`.
pub open spec fn integer_value(text: Seq<char>) -> Option<int> {
    if unsigned_part(text).len() > 0 && all_digits(unsigned_part(text)) && i32::MIN
        <= signed_value(text) <= i32::MAX {
        Some(signed_value(text))
    } else {
        None
    }
}

/// A run of digits writes no negative number.
pub proof fn lemma_digits_value_nonnegative(digits: Seq<char>)
    requires
        all_digits(digits),
    ensures
        digits_value(digits) >= 0,
    decreases digits.len(),
{
    if digits.len() > 0 {
        assert(is_digit(digits[digits.len() - 1]));
        assert forall|i: int| 0 <= i < digits.drop_last().len() implies is_digit(
            #[trigger] digits.drop_last()[i],
        ) by {
            assert(digits.drop_last()[i] == digits[i]);
        }
        lemma_digits_value_nonnegative(digits.drop_last());
    }
}

/// More digits never write a smaller number: a prefix of a run of digits
/// writes at most what the whole run writes.
pub proof fn lemma_prefix_value_bounded(digits: Seq<char>, k: int)
    requires
        all_digits(digits),
        0 <= k <= digits.len(),
    ensures
        0 <= digits_value(digits.take(k)) <= digits_value(digits),
    decreases digits.len() - k,
{
    assert forall|i: int| 0 <= i < digits.take(k).len() implies is_digit(
        #[trigger] digits.take(k)[i],
    ) by {
        assert(digits.take(k)[i] == digits[i]);
    }
    lemma_digits_value_nonnegative(digits.take(k));
    if k == digits.len() {
        assert(digits.take(k) =~= digits);
    } else {
        lemma_prefix_value_bounded(digits, k + 1);
        assert(digits.take(k + 1).drop_last() =~= digits.take(k));
        assert(is_digit(digits[k]));
        assert(digits.take(k + 1).last() == digits[k]);
    }
}

/// A text with a character outside ASCII denotes no integer.
proof fn lemma_beyond_ascii_is_no_integer(text: Seq<char>)
    requires
        !vstd::utf8::is_ascii_chars(text),
    ensures
        integer_value(text) is None,
{
    let i = choose|i: int| 0 <= i < text.len() && !('\0' <= #[trigger] text[i] <= '\u{7f}');
    assert(!is_digit(text[i]));
    assert(text[i] != '+' && text[i] != '-');
    if has_sign(text) {
        assert(i > 0);
        assert(unsigned_part(text)[i - 1] == text[i]);
    } else {
        assert(unsigned_part(text)[i] == text[i]);
    }
}

/// Reads `text` as a base-10 `i32`: an optional sign, then digits only.
///
/// Returns the number where `text` denotes one, and `None` for every other
/// text: the empty text, a lone sign, any character that is no digit, a
/// number out of range.
pub fn parse_i32(text: &str) -> (value: Option<i32>)
    ensures
        match value {
            Some(v) => integer_value(text@) == Some(v as int),
            None => integer_value(text@) is None,
        },
{
    if !text.is_ascii() {
        proof {
            lemma_beyond_ascii_is_no_integer(text@);
        }
        return None;
    }
    let bytes: &[u8] = text.as_bytes();
    proof {
        is_ascii_spec_bytes(text);
        vstd::utf8::is_ascii_chars_nat_bound(text@);
    }
    let n: usize = bytes.len();
    assert(n == text@.len());
    assert(forall|k: int| 0 <= k < n ==> #[trigger] bytes@[k] as int == text@[k] as int);
    if n == 0 {
        return None;
    }
    let first: u8 = bytes[0];
    let negative: bool = first == 45;
    let start: usize = if first == 45 || first == 43 {
        1
    } else {
        0
    };
    if start == n {
        return None;
    }
    assert(has_sign(text@) <==> start == 1);
    assert(negative <==> text@[0] == '-');
    let ghost digits = unsigned_part(text@);
    assert(digits =~= text@.skip(start as int));
    let mut magnitude: i64 = 0;
    let mut i: usize = start;
    while i < n
        invariant
            start <= i <= n,
            start < n,
            negative <==> text@[0] == '-',
            n == bytes@.len(),
            n == text@.len(),
            forall|k: int| 0 <= k < n ==> #[trigger] bytes@[k] as int == text@[k] as int,
            digits == text@.skip(start as int),
            digits == unsigned_part(text@),
            all_digits(digits.take(i - start)),
            magnitude == digits_value(digits.take(i - start)),
            0 <= magnitude <= 2147483648,
        decreases n - i,
    {
        let b: u8 = bytes[i];
        assert(digits[i - start] == text@[i as int]);
        if b < 48 || b > 57 {
            assert(!is_digit(digits[i - start]));
            return None;
        }
        assert(is_digit(digits[i - start]));
        let next: i64 = magnitude * 10 + (b - 48) as i64;
        proof {
            assert(digits.take(i + 1 - start).drop_last() =~= digits.take(i - start));
            assert(digits.take(i + 1 - start).last() == digits[i - start]);
            assert(next == digits_value(digits.take(i + 1 - start)));
            assert forall|k: int| 0 <= k < digits.take(i + 1 - start).len() implies is_digit(
                #[trigger] digits.take(i + 1 - start)[k],
            ) by {
                if k < i - start {
                    assert(digits.take(i - start)[k] == digits[k]);
                }
            }
        }
        if next > 2147483648 {
            proof {
                if all_digits(digits) {
                    lemma_prefix_value_bounded(digits, i + 1 - start);
                }
            }
            return None;
        }
        magnitude = next;
        i += 1;
    }
    assert(digits.take(n - start) =~= digits);
    if negative {
        Some((-magnitude) as i32)
    } else if magnitude <= 2147483647 {
        Some(magnitude as i32)
    } else {
        None
    }
}

} // verus!
