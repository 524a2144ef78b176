//! From text to tokens.
//!
//! The text is cut into tokens from left to right. White space separates
//! tokens and is otherwise ignored. A number is one or more digits, which may be
//! followed by a point and one or more digits; it takes as many characters as
//! it can. The cutting stops at the end of the text, or at the first character
//! that starts no token.
use crate::decimal::{Decimal, DecimalValue};
use crate::literal::{is_digit, lemma_number_within, number_len, number_value, read_number};
use crate::text::left;
use vstd::prelude::*;

verus! {

/// A token as a mathematical value.
pub enum Lexeme {
    /// `+`
    Plus,
    /// `*`
    Star,
    /// `^`
    Caret,
    /// `(`
    Open,
    /// `)`
    Close,
    /// The variable, `x`.
    Variable,
    /// A named constant: a letter other than `x`.
    Symbol(char),
    /// A number.
    Number(DecimalValue),
    /// The end of the text.
    End,
    /// A character that starts no token.
    Invalid,
}

/// A token.
#[derive(Debug, PartialEq)]
pub enum Token {
    /// `+`
    Plus,
    /// `*`
    Star,
    /// `^`
    Caret,
    /// `(`
    Open,
    /// `)`
    Close,
    /// The variable, `x`.
    Variable,
    /// A named constant: a letter other than `x`.
    Symbol(char),
    /// A number.
    Number(Decimal),
    /// The end of the text.
    End,
    /// A character that starts no token.
    Invalid,
}

impl View for Token {
    type V = Lexeme;

    open spec fn view(&self) -> Lexeme {
        match self {
            Token::Plus => Lexeme::Plus,
            Token::Star => Lexeme::Star,
            Token::Caret => Lexeme::Caret,
            Token::Open => Lexeme::Open,
            Token::Close => Lexeme::Close,
            Token::Variable => Lexeme::Variable,
            Token::Symbol(c) => Lexeme::Symbol(*c),
            Token::Number(n) => Lexeme::Number(n@),
            Token::End => Lexeme::End,
            Token::Invalid => Lexeme::Invalid,
        }
    }
}

/// The tokens of `tokens` as mathematical values.
pub open spec fn lexemes(tokens: Seq<Token>) -> Seq<Lexeme> {
    Seq::new(tokens.len(), |k: int| tokens[k]@)
}

/// Whether `c` is white space: a space, a tab, a line feed, a form feed or a
/// carriage return.
pub open spec fn is_space(c: char) -> bool {
    c == ' ' || c == '\t' || c == '\n' || c == '\x0C' || c == '\r'
}

/// Whether `c` is one of the letters `a` to `z` and `A` to `Z`.
pub open spec fn is_letter(c: char) -> bool {
    ('a' <= c && c <= 'z') || ('A' <= c && c <= 'Z')
}

/// How many white space characters stand in a row at position `i`.
pub open spec fn space_run(s: Seq<char>, i: nat) -> nat
    decreases left(s, i),
{
    if i < s.len() && is_space(s[i as int]) {
        1 + space_run(s, i + 1)
    } else {
        0
    }
}

/// The token that starts with the character at position `i`.
pub open spec fn lexeme_at(s: Seq<char>, i: nat) -> Lexeme {
    let c = s[i as int];
    if c == '+' {
        Lexeme::Plus
    } else if c == '*' {
        Lexeme::Star
    } else if c == '^' {
        Lexeme::Caret
    } else if c == '(' {
        Lexeme::Open
    } else if c == ')' {
        Lexeme::Close
    } else if c == 'x' {
        Lexeme::Variable
    } else if is_letter(c) {
        Lexeme::Symbol(c)
    } else if is_digit(c) {
        Lexeme::Number(number_value(s, i))
    } else {
        Lexeme::Invalid
    }
}

/// How many characters the token at position `i` takes.
pub open spec fn lexeme_len(s: Seq<char>, i: nat) -> nat {
    if is_digit(s[i as int]) {
        number_len(s, i)
    } else {
        1
    }
}

/// The tokens of `s` from position `i` on, and the position at which each of
/// them starts. The last token is `End`, at the length of `s`, or `Invalid`,
/// at the character that starts no token; neither stands anywhere else.
pub open spec fn scan(s: Seq<char>, i: nat) -> (Seq<Lexeme>, Seq<nat>)
    decreases left(s, i),
{
    let start = i + space_run(s, i);
    if start >= s.len() {
        (seq![Lexeme::End], seq![s.len()])
    } else if lexeme_at(s, start) == Lexeme::Invalid {
        (seq![Lexeme::Invalid], seq![start])
    } else {
        let rest = scan(s, start + lexeme_len(s, start));
        (seq![lexeme_at(s, start)] + rest.0, seq![start] + rest.1)
    }
}

/// Whether `lexeme` marks where the tokens stop.
pub open spec fn is_last(lexeme: Lexeme) -> bool {
    lexeme == Lexeme::End || lexeme == Lexeme::Invalid
}

/// A row of white space ends within the text.
pub proof fn lemma_space_run_within(s: Seq<char>, i: nat)
    requires
        i <= s.len(),
    ensures
        i + space_run(s, i) <= s.len(),
    decreases left(s, i),
{
    if i < s.len() && is_space(s[i as int]) {
        lemma_space_run_within(s, i + 1);
    }
}

/// The shape of the tokens of a text: there is one start for each token; the
/// tokens stop with `End` or `Invalid`, which stands nowhere else; each token
/// starts within the text, behind the token before it; and `End` stands at
/// the length of the text.
pub proof fn lemma_scan_shape(s: Seq<char>, i: nat)
    requires
        i <= s.len(),
    ensures
        ({
            let (w, starts) = scan(s, i);
            &&& w.len() == starts.len()
            &&& w.len() >= 1
            &&& is_last(w.last())
            &&& forall|k: int| 0 <= k < w.len() - 1 ==> !is_last(#[trigger] w[k])
            &&& forall|k: int| 0 <= k < starts.len() ==> i <= #[trigger] starts[k] <= s.len()
            &&& forall|k: int, m: int| 0 <= k < m < starts.len() ==> starts[k] < starts[m]
            &&& w.last() == Lexeme::End ==> starts.last() == s.len()
        }),
    decreases left(s, i),
{
    lemma_space_run_within(s, i);
    let start = i + space_run(s, i);
    if start < s.len() && lexeme_at(s, start) != Lexeme::Invalid {
        lemma_number_within(s, start);
        let next = start + lexeme_len(s, start);
        lemma_scan_shape(s, next);
        let (w, starts) = scan(s, i);
        let rest = scan(s, next);
        assert forall|k: int| 0 <= k < w.len() - 1 implies !is_last(#[trigger] w[k]) by {
            if k > 0 {
                assert(w[k] == rest.0[k - 1]);
            }
        }
        assert forall|k: int| 0 <= k < starts.len() implies i <= #[trigger] starts[k]
            <= s.len() by {
            if k > 0 {
                assert(starts[k] == rest.1[k - 1]);
            }
        }
        assert forall|k: int, m: int| 0 <= k < m < starts.len() implies starts[k]
            < starts[m] by {
            assert(starts[m] == rest.1[m - 1]);
            if k > 0 {
                assert(starts[k] == rest.1[k - 1]);
            }
        }
        assert(w.last() == rest.0.last());
        assert(starts.last() == rest.1.last());
    }
}

/// The positions of `starts` as natural numbers.
pub open spec fn positions(starts: Seq<usize>) -> Seq<nat> {
    Seq::new(starts.len(), |k: int| starts[k] as nat)
}

/// White space in front of a token changes nothing: the tokens from a
/// position at which white space stands are the tokens from the position
/// behind it.
pub proof fn lemma_scan_space(s: Seq<char>, i: nat)
    requires
        i < s.len(),
        is_space(s[i as int]),
    ensures
        scan(s, i) == scan(s, i + 1),
{
}

/// The token that starts with `c`, where one character tells.
fn single(c: char) -> (r: Option<Token>)
    ensures
        match r {
            Some(t) => !is_digit(c) && t@ != Lexeme::Invalid && forall|s: Seq<char>, i: nat|
                i < s.len() && s[i as int] == c ==> #[trigger] lexeme_at(s, i) == t@,
            None => is_digit(c) || forall|s: Seq<char>, i: nat|
                i < s.len() && s[i as int] == c ==> #[trigger] lexeme_at(s, i) == Lexeme::Invalid,
        },
{
    if c == '+' {
        Some(Token::Plus)
    } else if c == '*' {
        Some(Token::Star)
    } else if c == '^' {
        Some(Token::Caret)
    } else if c == '(' {
        Some(Token::Open)
    } else if c == ')' {
        Some(Token::Close)
    } else if c == 'x' {
        Some(Token::Variable)
    } else if ('a' <= c && c <= 'z') || ('A' <= c && c <= 'Z') {
        Some(Token::Symbol(c))
    } else {
        None
    }
}

/// Cuts `chars` into tokens: the tokens, and the position at which each starts.
pub fn tokenize(chars: &Vec<char>) -> (r: (Vec<Token>, Vec<usize>))
    ensures
        lexemes(r.0@) == scan(chars@, 0).0,
        positions(r.1@) == scan(chars@, 0).1,
{
    let ghost s = chars@;
    let mut tokens: Vec<Token> = Vec::new();
    let mut starts: Vec<usize> = Vec::new();
    let mut i: usize = 0;
    let mut done = false;
    assert(lexemes(tokens@) + scan(s, 0).0 =~= scan(s, 0).0);
    assert(positions(starts@) + scan(s, 0).1 =~= scan(s, 0).1);
    while !done
        invariant
            s == chars@,
            i <= chars.len(),
            !done ==> scan(s, 0).0 == lexemes(tokens@) + scan(s, i as nat).0,
            !done ==> scan(s, 0).1 == positions(starts@) + scan(s, i as nat).1,
            done ==> scan(s, 0).0 == lexemes(tokens@),
            done ==> scan(s, 0).1 == positions(starts@),
        decreases chars.len() - i + (if done { 0int } else { 1int }),
    {
        let ghost from = i;
        while i < chars.len() && (chars[i] == ' ' || chars[i] == '\t' || chars[i] == '\n'
            || chars[i] == '\x0C' || chars[i] == '\r')
            invariant
                s == chars@,
                from <= i <= chars.len(),
                scan(s, from as nat) == scan(s, i as nat),
            decreases chars.len() - i,
        {
            proof {
                lemma_scan_space(s, i as nat);
            }
            i = i + 1;
        }
        let ghost here = scan(s, i as nat);
        let ghost before = lexemes(tokens@);
        let ghost before_at = positions(starts@);
        assert(space_run(s, i as nat) == 0);
        if i >= chars.len() {
            tokens.push(Token::End);
            starts.push(i);
            done = true;
        } else if '0' <= chars[i] && chars[i] <= '9' {
            let (n, end) = read_number(chars, i);
            tokens.push(Token::Number(n));
            starts.push(i);
            assert(here.0 == seq![lexeme_at(s, i as nat)] + scan(s, end as nat).0);
            assert(here.1 == seq![i as nat] + scan(s, end as nat).1);
            i = end;
        } else {
            match single(chars[i]) {
                Some(t) => {
                    assert(lexeme_at(s, i as nat) == t@);
                    tokens.push(t);
                    starts.push(i);
                    assert(here.0 == seq![lexeme_at(s, i as nat)] + scan(s, (i + 1) as nat).0);
                    assert(here.1 == seq![i as nat] + scan(s, (i + 1) as nat).1);
                    i = i + 1;
                },
                None => {
                    assert(lexeme_at(s, i as nat) == Lexeme::Invalid);
                    tokens.push(Token::Invalid);
                    starts.push(i);
                    done = true;
                },
            }
        }
        proof {
            let pushed = tokens@.last()@;
            assert(lexemes(tokens@) =~= before.push(pushed));
            assert(positions(starts@) =~= before_at.push(starts@.last() as nat));
            if done {
                assert(before + here.0 =~= lexemes(tokens@));
                assert(before_at + here.1 =~= positions(starts@));
            } else {
                assert(before + here.0 =~= lexemes(tokens@) + scan(s, i as nat).0);
                assert(before_at + here.1 =~= positions(starts@) + scan(s, i as nat).1);
            }
        }
    }
    (tokens, starts)
}

} // verus!
