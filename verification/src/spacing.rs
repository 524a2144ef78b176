//! White space between tokens says nothing.
//!
//! A white space character put between two tokens (in front of the first,
//! behind the last, or into the white space that is there already) leaves the
//! tokens as they are, and so the expression that is read.
use crate::expression::Expression;
use crate::lexing::{
    is_space, lemma_scan_shape, lemma_scan_space, lemma_space_run_within, lexeme_at, lexeme_len,
    scan, space_run, Lexeme,
};
use crate::literal::{
    digit_run, digit_values, fraction_len, is_digit, lemma_digit_run_within, lemma_number_within,
};
use crate::parsing::parse;
use crate::text::left;
use vstd::prelude::*;

verus! {

/// Whether position `k` of the text `s` lies between two tokens: where a
/// token starts, or in the white space in front of a token.
pub open spec fn is_between_tokens(s: Seq<char>, k: nat) -> bool {
    k <= s.len() && scan(s, 0).1.contains(k + space_run(s, k))
}

/// Whether `b` is `a` with a white space character put at position `k`.
spec fn is_spaced(a: Seq<char>, b: Seq<char>, k: nat) -> bool {
    &&& k <= a.len()
    &&& b.len() == a.len() + 1
    &&& is_space(b[k as int])
    &&& forall|m: int| 0 <= m < k ==> b[m] == a[m]
    &&& forall|m: int| k <= m < a.len() ==> b[m + 1] == a[m]
}

/// Behind the new character, a row of white space is as long as it was.
proof fn lemma_space_run_shifts(a: Seq<char>, b: Seq<char>, k: nat, j: nat)
    requires
        is_spaced(a, b, k),
        k <= j,
    ensures
        space_run(b, j + 1) == space_run(a, j),
    decreases left(a, j),
{
    if j < a.len() {
        assert(b[j + 1 as int] == a[j as int]);
        if is_space(a[j as int]) {
            lemma_space_run_shifts(a, b, k, j + 1);
        }
    }
}

/// Behind the new character, a row of digits is as long as it was.
proof fn lemma_digit_run_shifts(a: Seq<char>, b: Seq<char>, k: nat, j: nat)
    requires
        is_spaced(a, b, k),
        k <= j,
    ensures
        digit_run(b, j + 1) == digit_run(a, j),
    decreases left(a, j),
{
    if j < a.len() {
        assert(b[j + 1 as int] == a[j as int]);
        if is_digit(a[j as int]) {
            lemma_digit_run_shifts(a, b, k, j + 1);
        }
    }
}

/// Behind the new character, a token is what it was.
proof fn lemma_lexeme_shifts(a: Seq<char>, b: Seq<char>, k: nat, j: nat)
    requires
        is_spaced(a, b, k),
        k <= j < a.len(),
    ensures
        lexeme_at(b, j + 1) == lexeme_at(a, j),
        lexeme_len(b, j + 1) == lexeme_len(a, j),
{
    assert(b[j + 1 as int] == a[j as int]);
    lemma_digit_run_shifts(a, b, k, j);
    lemma_digit_run_within(a, j);
    let run = digit_run(a, j);
    let point = j + run;
    if point < a.len() {
        assert(b[point + 1 as int] == a[point as int]);
    }
    if point + 1 < a.len() {
        assert(b[point + 2 as int] == a[point + 1 as int]);
    }
    lemma_digit_run_shifts(a, b, k, point + 1);
    assert(fraction_len(b, j + 1) == fraction_len(a, j));
    let places = fraction_len(a, j);
    if places > 0 {
        lemma_digit_run_within(a, point + 1);
    }
    assert(digit_values(b, j + 1, run) =~= digit_values(a, j, run));
    assert(digit_values(b, j + 1 + run + 1, places) =~= digit_values(a, j + run + 1, places));
}

/// Behind the new character, the tokens are what they were.
proof fn lemma_scan_shifts(a: Seq<char>, b: Seq<char>, k: nat, j: nat)
    requires
        is_spaced(a, b, k),
        k <= j,
    ensures
        scan(b, j + 1).0 == scan(a, j).0,
    decreases left(a, j),
{
    lemma_space_run_shifts(a, b, k, j);
    let start = j + space_run(a, j);
    if start < a.len() {
        lemma_lexeme_shifts(a, b, k, start);
        if lexeme_at(a, start) != Lexeme::Invalid {
            assert(lexeme_len(a, start) >= 1);
            lemma_scan_shifts(a, b, k, start + lexeme_len(a, start));
        }
    }
}

/// In front of the new character, a row of white space that ends there is
/// as long as it was.
proof fn lemma_space_run_stays(a: Seq<char>, b: Seq<char>, k: nat, j: nat)
    requires
        is_spaced(a, b, k),
        j + space_run(a, j) < k,
    ensures
        space_run(b, j) == space_run(a, j),
    decreases left(a, j),
{
    assert(b[j as int] == a[j as int]);
    if is_space(a[j as int]) {
        lemma_space_run_stays(a, b, k, j + 1);
    }
}

/// A row of white space that reaches the new character is longer by it, and
/// ends where it ended.
proof fn lemma_space_run_grows(a: Seq<char>, b: Seq<char>, k: nat, j: nat)
    requires
        is_spaced(a, b, k),
        j <= k <= j + space_run(a, j),
    ensures
        space_run(b, j) == space_run(a, j) + 1,
        k + space_run(a, k) == j + space_run(a, j),
    decreases k - j,
{
    if j == k {
        lemma_space_run_shifts(a, b, k, k);
    } else {
        assert(b[j as int] == a[j as int]);
        lemma_space_run_grows(a, b, k, j + 1);
    }
}

/// In front of the new character, a row of digits is as long as it was.
proof fn lemma_digit_run_stays(a: Seq<char>, b: Seq<char>, k: nat, j: nat)
    requires
        is_spaced(a, b, k),
        j + digit_run(a, j) <= k,
    ensures
        digit_run(b, j) == digit_run(a, j),
    decreases left(a, j),
{
    if j < k {
        assert(b[j as int] == a[j as int]);
        if is_digit(a[j as int]) {
            lemma_digit_run_stays(a, b, k, j + 1);
        }
    }
}

/// In front of the new character, a token that ends there is what it was.
proof fn lemma_lexeme_stays(a: Seq<char>, b: Seq<char>, k: nat, j: nat)
    requires
        is_spaced(a, b, k),
        j < k,
        j + lexeme_len(a, j) <= k,
    ensures
        lexeme_at(b, j) == lexeme_at(a, j),
        lexeme_len(b, j) == lexeme_len(a, j),
{
    assert(b[j as int] == a[j as int]);
    if is_digit(a[j as int]) {
        let run = digit_run(a, j);
        let point = j + run;
        let places = fraction_len(a, j);
        lemma_digit_run_stays(a, b, k, j);
        if places > 0 {
            assert(b[point as int] == a[point as int]);
            assert(b[point + 1 as int] == a[point + 1 as int]);
            lemma_digit_run_stays(a, b, k, point + 1);
        } else if point < k {
            assert(b[point as int] == a[point as int]);
        }
        assert(fraction_len(b, j) == places);
        assert(digit_values(b, j, run) =~= digit_values(a, j, run));
        assert(digit_values(b, j + run + 1, places) =~= digit_values(a, j + run + 1, places));
    }
}

/// The tokens from a position are the tokens from behind the white space
/// that stands there.
proof fn lemma_scan_skips(s: Seq<char>, i: nat)
    ensures
        scan(s, i) == scan(s, i + space_run(s, i)),
    decreases left(s, i),
{
    if i < s.len() && is_space(s[i as int]) {
        lemma_scan_space(s, i);
        lemma_scan_skips(s, i + 1);
    }
}

/// No white space stands in a token.
proof fn lemma_no_space_in_token(s: Seq<char>, j: nat, m: nat)
    requires
        j < s.len(),
        !is_space(s[j as int]),
        j <= m < j + lexeme_len(s, j),
    ensures
        m < s.len(),
        !is_space(s[m as int]),
{
    if is_digit(s[j as int]) {
        let run = digit_run(s, j);
        lemma_digit_run_within(s, j);
        if m < j + run {
            lemma_in_digit_run(s, j, m);
        } else if m > j + run {
            lemma_digit_run_within(s, j + run + 1);
            lemma_in_digit_run(s, j + run + 1, m);
        }
    }
}

/// What stands in a row of digits is a digit.
proof fn lemma_in_digit_run(s: Seq<char>, j: nat, m: nat)
    requires
        j <= m < j + digit_run(s, j),
    ensures
        m < s.len(),
        is_digit(s[m as int]),
    decreases left(s, j),
{
    if j < m {
        lemma_in_digit_run(s, j + 1, m);
    }
}

/// A white space character between two tokens leaves the tokens from any
/// position in front of it as they are.
proof fn lemma_scan_spaced(a: Seq<char>, b: Seq<char>, k: nat, i: nat)
    requires
        is_spaced(a, b, k),
        i <= k,
        scan(a, i).1.contains(k + space_run(a, k)),
    ensures
        scan(b, i).0 == scan(a, i).0,
    decreases left(a, i),
{
    let start = i + space_run(a, i);
    let mark = k + space_run(a, k);
    lemma_space_run_within(a, i);
    if start >= k {
        lemma_space_run_grows(a, b, k, i);
        lemma_scan_skips(a, i);
        lemma_scan_skips(b, i);
        lemma_scan_shifts(a, b, k, start);
    } else {
        let next = start + lexeme_len(a, start);
        let index = choose|index: int|
            0 <= index < scan(a, i).1.len() && scan(a, i).1[index] == mark;
        assert(lexeme_at(a, start) != Lexeme::Invalid);
        assert(index > 0);
        assert(scan(a, i).1[index] == scan(a, next).1[index - 1]);
        assert(scan(a, next).1.contains(mark));
        assert(lexeme_len(a, start) >= 1);
        lemma_number_within(a, start);
        lemma_scan_shape(a, next);
        if k < next {
            lemma_no_space_in_token(a, start, k);
        }
        lemma_space_run_stays(a, b, k, i);
        lemma_lexeme_stays(a, b, k, start);
        lemma_scan_spaced(a, b, k, next);
    }
}

/// White space between tokens says nothing: with a white space character put
/// between two tokens, the tokens are what they were.
pub proof fn lemma_space_between_tokens(s: Seq<char>, k: nat, c: char)
    requires
        is_space(c),
        is_between_tokens(s, k),
    ensures
        scan(s.insert(k as int, c), 0).0 == scan(s, 0).0,
{
    let b = s.insert(k as int, c);
    assert(is_spaced(s, b, k));
    lemma_scan_spaced(s, b, k, 0);
}

/// With a white space character put between two tokens, a text writes the
/// expression that it wrote, or still writes none.
pub proof fn theorem_space_changes_nothing(s: Seq<char>, k: nat, c: char, tree: Expression)
    requires
        is_space(c),
        is_between_tokens(s, k),
    ensures
        parse(s.insert(k as int, c)) == Ok::<Expression, nat>(tree) <==> parse(s) == Ok::<
            Expression,
            nat,
        >(tree),
{
    lemma_space_between_tokens(s, k, c);
}

} // verus!
