//! Coordinates of the plotting head: decimal numbers, kept as the numerals
//! that a script or the encoder gave.

use crate::decimal::{
    all_digits, decimal, decimal_chars, digit_char, digits_value, is_decimal, is_digit,
    lemma_decimal_is_decimal,
};
use crate::text::chars_of;
use vstd::prelude::*;
use vstd::string::StringExecFns;

verus! {

/// The numeral of a single digit.
fn digit_text(d: usize) -> (text: &'static str)
    requires
        d < 10,
    ensures
        text@ == seq![digit_char(d as int)],
{
    proof {
        reveal_strlit("0");
        reveal_strlit("1");
        reveal_strlit("2");
        reveal_strlit("3");
        reveal_strlit("4");
        reveal_strlit("5");
        reveal_strlit("6");
        reveal_strlit("7");
        reveal_strlit("8");
        reveal_strlit("9");
    }
    let text = if d == 0 {
        "0"
    } else if d == 1 {
        "1"
    } else if d == 2 {
        "2"
    } else if d == 3 {
        "3"
    } else if d == 4 {
        "4"
    } else if d == 5 {
        "5"
    } else if d == 6 {
        "6"
    } else if d == 7 {
        "7"
    } else if d == 8 {
        "8"
    } else {
        "9"
    };
    assert(text@ =~= seq![digit_char(d as int)]);
    text
}

/// The decimal numeral of `n`.
pub fn decimal_string(n: usize) -> (text: String)
    ensures
        text@ == decimal(n as nat),
    decreases n,
{
    if n < 10 {
        String::from_str(digit_text(n))
    } else {
        let mut text = decimal_string(n / 10);
        text.append(digit_text(n % 10));
        assert(text@ =~= decimal((n / 10) as nat).push(digit_char((n % 10) as int)));
        text
    }
}

/// A coordinate: a decimal number, as its numeral.
#[derive(Debug, PartialEq, Eq)]
pub struct Coordinate {
    text: String,
}

impl View for Coordinate {
    type V = Seq<char>;

    closed spec fn view(&self) -> Seq<char> {
        self.text@
    }
}

impl Clone for Coordinate {
    fn clone(&self) -> (copy: Self)
        ensures
            copy@ == self@,
    {
        proof {
            use_type_invariant(self);
        }
        Coordinate { text: self.text.clone() }
    }
}

impl Coordinate {
    /// The numeral is a decimal number.
    #[verifier::type_invariant]
    spec fn numeric(self) -> bool {
        is_decimal(self.text@)
    }

    /// Reads a coordinate. There is one exactly when `token` is a decimal
    /// number, and it keeps the numeral as it was written.
    pub fn parse(token: &str) -> (result: Option<Coordinate>)
        ensures
            result is Some <==> is_decimal(token@),
            result matches Some(c) ==> c@ == token@,
    {
        let chars = chars_of(token);
        if decimal_chars(&chars) {
            Some(Coordinate { text: String::from_str(token) })
        } else {
            None
        }
    }

    /// The coordinate of a pixel column or row.
    pub fn from_index(n: usize) -> (c: Coordinate)
        ensures
            c@ == decimal(n as nat),
    {
        proof {
            lemma_decimal_is_decimal(n as nat);
        }
        Coordinate { text: decimal_string(n) }
    }

    /// The coordinate of the origin.
    pub fn zero() -> (c: Coordinate)
        ensures
            c@ == decimal(0),
    {
        Coordinate::from_index(0)
    }

    /// The numeral of the coordinate.
    pub fn as_str(&self) -> (text: &str)
        ensures
            text@ == self@,
            is_decimal(self@),
    {
        proof {
            use_type_invariant(self);
        }
        self.text.as_str()
    }

    /// The index that the coordinate stands for, where its numeral is made
    /// of digits only and the number fits.
    pub fn to_index(&self) -> (index: Option<usize>)
        ensures
            index is Some <==> all_digits(self@) && digits_value(self@) <= usize::MAX,
            index matches Some(n) ==> n == digits_value(self@),
    {
        let chars = chars_of(self.text.as_str());
        let mut value: usize = 0;
        let mut i: usize = 0;
        while i < chars.len()
            invariant
                i <= chars.len(),
                chars@ == self@,
                all_digits(chars@.take(i as int)),
                value == digits_value(chars@.take(i as int)),
            decreases chars.len() - i,
        {
            let c = chars[i];
            proof {
                assert(chars@.take(i + 1).drop_last() =~= chars@.take(i as int));
                assert(chars@.take(i + 1).last() == c);
            }
            if !('0' <= c && c <= '9') {
                proof {
                    assert(!is_digit(chars@[i as int]));
                }
                return None;
            }
            let d: usize = (c as u8 - 48) as usize;
            if value > (usize::MAX - d) / 10 {
                proof {
                    if all_digits(chars@) {
                        lemma_digits_value_grows(chars@, i + 1);
                    }
                }
                return None;
            }
            value = value * 10 + d;
            proof {
                assert forall|k: int| 0 <= k < i + 1 implies is_digit(#[trigger] chars@.take(i + 1)[k]) by {
                    if k < i {
                        assert(chars@.take(i as int)[k] == chars@[k]);
                    }
                }
            }
            i = i + 1;
        }
        proof {
            assert(chars@.take(chars.len() as int) =~= chars@);
        }
        Some(value)
    }
}

/// A longer run of digits does not stand for a smaller number.
pub proof fn lemma_digits_value_grows(s: Seq<char>, k: int)
    requires
        0 <= k <= s.len(),
        all_digits(s),
    ensures
        digits_value(s.take(k)) <= digits_value(s),
    decreases s.len() - k,
{
    if k == s.len() {
        assert(s.take(k) =~= s);
    } else {
        lemma_digits_value_grows(s, k + 1);
        assert(s.take(k + 1).drop_last() =~= s.take(k));
        assert(is_digit(s[k]));
        assert(s.take(k + 1).last() == s[k]);
    }
}

} // verus!
