//! Numbers as they are written in text.
//!
//! A number is one or more digits, which may be followed by a point and one or
//! more digits. It has no sign and no exponent.
use crate::decimal::{Decimal, DecimalValue};
use crate::digits::is_digits;
use crate::text::{left, to_chars};
use vstd::prelude::*;

verus! {

/// Whether `c` is one of the digits `0` to `9`.
pub open spec fn is_digit(c: char) -> bool {
    '0' <= c && c <= '9'
}

/// The value of the digit `c`.
pub open spec fn digit_value(c: char) -> u8 {
    (c as u32 - '0' as u32) as u8
}

/// How many digits stand in a row at position `i`.
pub open spec fn digit_run(s: Seq<char>, i: nat) -> nat
    decreases left(s, i),
{
    if i < s.len() && is_digit(s[i as int]) {
        1 + digit_run(s, i + 1)
    } else {
        0
    }
}

/// The values of the `n` digits at position `i`.
pub open spec fn digit_values(s: Seq<char>, i: nat, n: nat) -> Seq<u8> {
    Seq::new(n, |k: int| digit_value(s[i + k]))
}

/// How many digits follow the point of the number at position `i`; zero where
/// the number has no point. A point counts only between two digits.
pub open spec fn fraction_len(s: Seq<char>, i: nat) -> nat {
    let point = i + digit_run(s, i);
    if point > i && point + 1 < s.len() && s[point as int] == '.' && is_digit(
        s[point + 1 as int],
    ) {
        digit_run(s, point + 1)
    } else {
        0
    }
}

/// How many characters the number at position `i` takes.
pub open spec fn number_len(s: Seq<char>, i: nat) -> nat {
    if fraction_len(s, i) > 0 {
        digit_run(s, i) + 1 + fraction_len(s, i)
    } else {
        digit_run(s, i)
    }
}

/// Whether `s` is a number and nothing else.
pub open spec fn is_number(s: Seq<char>) -> bool {
    s.len() > 0 && number_len(s, 0) == s.len()
}

/// The value of the number at position `i`.
pub open spec fn number_value(s: Seq<char>, i: nat) -> DecimalValue {
    DecimalValue::written(
        digit_values(s, i, digit_run(s, i)),
        digit_values(s, i + digit_run(s, i) + 1, fraction_len(s, i)),
    )
}

/// A row of digits ends within the text.
pub proof fn lemma_digit_run_within(s: Seq<char>, i: nat)
    requires
        i <= s.len(),
    ensures
        i + digit_run(s, i) <= s.len(),
    decreases left(s, i),
{
    if i < s.len() && is_digit(s[i as int]) {
        lemma_digit_run_within(s, i + 1);
    }
}

/// A number ends within the text, and where it starts with a digit it is not
/// empty.
pub proof fn lemma_number_within(s: Seq<char>, i: nat)
    requires
        i <= s.len(),
    ensures
        i + number_len(s, i) <= s.len(),
        i < s.len() && is_digit(s[i as int]) ==> number_len(s, i) >= 1,
{
    lemma_digit_run_within(s, i);
    let point = i + digit_run(s, i);
    if point + 1 <= s.len() {
        lemma_digit_run_within(s, point + 1);
    }
}

/// Reads the digits that stand in a row at position `start`: their values,
/// and the position behind them.
fn read_digits(chars: &Vec<char>, start: usize) -> (r: (Vec<u8>, usize))
    requires
        start <= chars.len(),
    ensures
        r.0@ == digit_values(chars@, start as nat, digit_run(chars@, start as nat)),
        is_digits(r.0@),
        r.1 == start + digit_run(chars@, start as nat),
        r.1 <= chars.len(),
{
    let mut values: Vec<u8> = Vec::new();
    let mut i: usize = start;
    while i < chars.len() && '0' <= chars[i] && chars[i] <= '9'
        invariant
            start <= i <= chars.len(),
            digit_run(chars@, start as nat) == (i - start) + digit_run(chars@, i as nat),
            values@ == digit_values(chars@, start as nat, (i - start) as nat),
            is_digits(values@),
        decreases chars.len() - i,
    {
        values.push((chars[i] as u32 - '0' as u32) as u8);
        i = i + 1;
        assert(values@ =~= digit_values(chars@, start as nat, (i - start) as nat));
    }
    (values, i)
}

/// Reads the number at position `start`: its value, and the position behind it.
pub(crate) fn read_number(chars: &Vec<char>, start: usize) -> (r: (Decimal, usize))
    requires
        start <= chars.len(),
    ensures
        r.0@ == number_value(chars@, start as nat),
        r.1 == start + number_len(chars@, start as nat),
        r.1 <= chars.len(),
{
    let (whole, point) = read_digits(chars, start);
    if point > start && point < chars.len() && chars[point] == '.' && point + 1 < chars.len()
        && '0' <= chars[point + 1] && chars[point + 1] <= '9' {
        let (frac, end) = read_digits(chars, point + 1);
        (Decimal::written(whole, frac), end)
    } else {
        let frac: Vec<u8> = Vec::new();
        assert(frac@ =~= digit_values(chars@, (point + 1) as nat, 0));
        (Decimal::written(whole, frac), point)
    }
}

impl Decimal {
    /// The number that `text` writes, where `text` is a number and nothing
    /// else: `"12"`, `"0.5"`, `"007.250"`.
    pub fn from_literal(text: &str) -> (r: Option<Decimal>)
        ensures
            match r {
                Some(n) => is_number(text@) && n@ == number_value(text@, 0),
                None => !is_number(text@),
            },
    {
        let chars = to_chars(text);
        let (n, end) = read_number(&chars, 0);
        if end > 0 && end == chars.len() {
            Some(n)
        } else {
            None
        }
    }
}

} // verus!
