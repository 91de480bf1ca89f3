//! Decimal numerals: the digits of an index, and the grammar of the numbers
//! that a movement script may give as coordinates.
//!
//! A coordinate is kept as the numeral that the script gave. The player moves
//! the head from numeral to numeral and never computes with positions, so
//! nothing is lost on the way from a script to the segments it draws.

use crate::text::chars_of;
use vstd::prelude::*;

verus! {

/// Whether `c` is one of `0` to `9`.
pub open spec fn is_digit(c: char) -> bool {
    '0' <= c && c <= '9'
}

/// Whether `c` is a sign.
pub open spec fn is_sign(c: char) -> bool {
    c == '+' || c == '-'
}

/// Whether `c` introduces an exponent.
pub open spec fn is_exponent_mark(c: char) -> bool {
    c == 'e' || c == 'E'
}

/// The digit that stands for `d`, for `d` from 0 to 9.
pub open spec fn digit_char(d: int) -> char {
    ((d + 48) as u8) as char
}

/// What the digit `c` stands for.
pub open spec fn digit_value(c: char) -> int {
    (c as u8) - 48
}

/// The decimal numeral of `n`, without leading zeros.
pub open spec fn decimal(n: nat) -> Seq<char>
    decreases n,
{
    if n < 10 {
        seq![digit_char(n as int)]
    } else {
        decimal(n / 10).push(digit_char((n % 10) as int))
    }
}

/// Whether `s` is made of digits only.
pub open spec fn all_digits(s: Seq<char>) -> bool {
    forall|i: int| 0 <= i < s.len() ==> is_digit(#[trigger] s[i])
}

/// The number that a sequence of digits stands for.
pub open spec fn digits_value(s: Seq<char>) -> nat
    decreases s.len(),
{
    if s.len() == 0 {
        0
    } else {
        (digits_value(s.drop_last()) * 10 + digit_value(s.last())) as nat
    }
}

/// Where the run of digits that starts at `from` ends.
pub open spec fn digits_end(s: Seq<char>, from: int) -> int
    decreases s.len() - from,
{
    if 0 <= from < s.len() && is_digit(s[from]) {
        digits_end(s, from + 1)
    } else {
        from
    }
}

/// Whether an exponent starts at `at` and runs to the end of `s`: a mark,
/// an optional sign, and at least one digit.
pub open spec fn exponent_at(s: Seq<char>, at: int) -> bool {
    let digits = if at + 1 < s.len() && is_sign(s[at + 1]) {
        at + 2
    } else {
        at + 1
    };
    &&& 0 <= at < s.len()
    &&& is_exponent_mark(s[at])
    &&& digits_end(s, digits) > digits
    &&& digits_end(s, digits) == s.len()
}

/// Whether `s` is a decimal number: an optional sign; digits with an optional
/// point among, before or after them, at least one digit in all; and an
/// optional exponent.
pub open spec fn is_decimal(s: Seq<char>) -> bool {
    let start = if s.len() > 0 && is_sign(s[0]) {
        1int
    } else {
        0int
    };
    let whole_end = digits_end(s, start);
    let has_point = whole_end < s.len() && s[whole_end] == '.';
    let fraction_end = if has_point {
        digits_end(s, whole_end + 1)
    } else {
        whole_end
    };
    let digits = if has_point {
        fraction_end - start - 1
    } else {
        fraction_end - start
    };
    &&& digits > 0
    &&& (fraction_end == s.len() || exponent_at(s, fraction_end))
}

/// A run of digits ends at or after its start, within the text, and holds
/// digits only.
pub proof fn lemma_digits_end(s: Seq<char>, from: int)
    requires
        0 <= from <= s.len(),
    ensures
        from <= digits_end(s, from) <= s.len(),
        forall|i: int| from <= i < digits_end(s, from) ==> is_digit(#[trigger] s[i]),
        digits_end(s, from) < s.len() ==> !is_digit(s[digits_end(s, from)]),
    decreases s.len() - from,
{
    if from < s.len() && is_digit(s[from]) {
        lemma_digits_end(s, from + 1);
    }
}

/// Where only digits follow, the run of digits ends with the text.
pub proof fn lemma_digits_to_the_end(s: Seq<char>, from: int)
    requires
        0 <= from <= s.len(),
        forall|i: int| from <= i < s.len() ==> is_digit(#[trigger] s[i]),
    ensures
        digits_end(s, from) == s.len(),
    decreases s.len() - from,
{
    if from < s.len() {
        lemma_digits_to_the_end(s, from + 1);
    }
}

/// The numeral of an index is a non-empty run of digits that stands for the
/// index.
pub proof fn lemma_decimal(n: nat)
    ensures
        decimal(n).len() > 0,
        all_digits(decimal(n)),
        digits_value(decimal(n)) == n,
    decreases n,
{
    if n < 10 {
        let s = decimal(n);
        assert(s.len() == 1);
        assert(s[0] == digit_char(n as int));
        assert(s.drop_last() =~= Seq::<char>::empty());
        assert(digits_value(s.drop_last()) == 0);
        assert(s.last() == digit_char(n as int));
    } else {
        lemma_decimal(n / 10);
        let front = decimal(n / 10);
        let s = decimal(n);
        assert(s == front.push(digit_char((n % 10) as int)));
        assert(s.drop_last() =~= front);
        assert(s.last() == digit_char((n % 10) as int));
        assert forall|i: int| 0 <= i < s.len() implies is_digit(#[trigger] s[i]) by {
            if i < front.len() {
                assert(s[i] == front[i]);
            }
        }
    }
}

/// The numeral of an index is a decimal number.
pub proof fn lemma_decimal_is_decimal(n: nat)
    ensures
        is_decimal(decimal(n)),
{
    lemma_decimal(n);
    let s = decimal(n);
    assert(is_digit(s[0]));
    lemma_digits_to_the_end(s, 0);
}

/// Whether `c` is a digit.
pub fn digit(c: char) -> (yes: bool)
    ensures
        yes == is_digit(c),
{
    '0' <= c && c <= '9'
}

/// Where the run of digits that starts at `from` ends.
fn skip_digits(chars: &Vec<char>, from: usize) -> (end: usize)
    requires
        from <= chars.len(),
    ensures
        end == digits_end(chars@, from as int),
        from <= end <= chars.len(),
{
    let mut i: usize = from;
    while i < chars.len() && digit(chars[i])
        invariant
            from <= i <= chars.len(),
            digits_end(chars@, from as int) == digits_end(chars@, i as int),
        decreases chars.len() - i,
    {
        i = i + 1;
    }
    i
}

/// Whether `chars` is a decimal number.
pub fn decimal_chars(chars: &Vec<char>) -> (yes: bool)
    ensures
        yes == is_decimal(chars@),
{
    let len = chars.len();
    let start: usize = if len > 0 && (chars[0] == '+' || chars[0] == '-') {
        1
    } else {
        0
    };
    let whole_end = skip_digits(chars, start);
    let has_point = whole_end < len && chars[whole_end] == '.';
    let fraction_end = if has_point {
        skip_digits(chars, whole_end + 1)
    } else {
        whole_end
    };
    let digits = if has_point {
        fraction_end - start - 1
    } else {
        fraction_end - start
    };
    if digits == 0 {
        return false;
    }
    if fraction_end == len {
        return true;
    }
    if !(chars[fraction_end] == 'e' || chars[fraction_end] == 'E') {
        return false;
    }
    let exponent: usize = if fraction_end + 1 < len && (chars[fraction_end + 1] == '+' || chars[fraction_end
        + 1] == '-') {
        fraction_end + 2
    } else {
        fraction_end + 1
    };
    let end = skip_digits(chars, exponent);
    end > exponent && end == len
}

/// Whether `text` is a decimal number.
pub fn is_decimal_text(text: &str) -> (yes: bool)
    ensures
        yes == is_decimal(text@),
{
    let chars = chars_of(text);
    decimal_chars(&chars)
}

} // verus!
