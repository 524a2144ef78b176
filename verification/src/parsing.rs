//! From tokens to an expression tree.
//!
//! The grammar has three levels, the loosest first:
//!
//! ```text
//! sum     := product ( '+' product )*
//! product := atom ( '*' atom )*
//! atom    := 'x' ( '^' number )? | number | letter | '(' sum ')'
//! ```
//!
//! Sums and products group to the left. Only the variable takes an exponent,
//! and the exponent is a number as it is written: it has no sign. Two atoms
//! side by side are not a product.
//!
//! Reading goes from left to right and looks one token ahead. Each level is a
//! function of the tokens and a position. It gives the tree of the phrase that
//! starts there and the number of tokens in it, or else the position of the
//! token that cannot stand where it does.
use crate::decimal::{Decimal, DecimalValue};
use crate::expression::{Expression, Value};
use crate::lexing::{is_last, lemma_scan_shape, lexemes, scan, Lexeme, Token};
use crate::{Cst, Ope};
use std::rc::Rc;
use vstd::prelude::*;

verus! {

/// What reading a phrase gives: its tree and the number of tokens that it
/// takes, or the position of the token that cannot stand where it does.
pub type Reading = Result<(Expression, nat), nat>;

/// The token at position `n`; behind the last token, `End`.
pub open spec fn word(w: Seq<Lexeme>, n: nat) -> Lexeme {
    if n < w.len() {
        w[n as int]
    } else {
        Lexeme::End
    }
}

/// How many tokens are left at position `n`.
pub open spec fn remaining(w: Seq<Lexeme>, n: nat) -> nat {
    if n < w.len() {
        (w.len() - n) as nat
    } else {
        0
    }
}

/// The reading `r` of a phrase, seen from `before` tokens further left.
pub open spec fn after(before: nat, r: Reading) -> Reading {
    match r {
        Ok((tree, used)) => Ok((tree, before + used)),
        Err(at) => Err(at),
    }
}

/// The atom at position `n`.
pub open spec fn atom(w: Seq<Lexeme>, n: nat) -> Reading
    decreases remaining(w, n), 0nat,
{
    match word(w, n) {
        Lexeme::Variable => if word(w, n + 1) == Lexeme::Caret {
            match word(w, n + 2) {
                Lexeme::Number(power) => Ok((Expression::PowerOfVariable(power), 3)),
                _ => Err(n + 2),
            }
        } else {
            Ok((Expression::PowerOfVariable(DecimalValue::integer(1)), 1))
        },
        Lexeme::Number(value) => Ok((Expression::Constant(Value::Numeric(value)), 1)),
        Lexeme::Symbol(name) => Ok((Expression::Constant(Value::Symbolic(name)), 1)),
        Lexeme::Open => match sum(w, n + 1) {
            Ok((tree, used)) => if word(w, n + 1 + used) == Lexeme::Close {
                Ok((tree, used + 2))
            } else {
                Err(n + 1 + used)
            },
            Err(at) => Err(at),
        },
        _ => Err(n),
    }
}

/// The product whose first factors, read already, make `left`, and whose
/// other factors start at position `n`.
pub open spec fn factors(w: Seq<Lexeme>, n: nat, left: Expression) -> Reading
    decreases remaining(w, n), 1nat,
{
    if word(w, n) == Lexeme::Star {
        match atom(w, n + 1) {
            Ok((right, used)) => after(
                1 + used,
                factors(w, n + 1 + used, Expression::Product(Box::new(left), Box::new(right))),
            ),
            Err(at) => Err(at),
        }
    } else {
        Ok((left, 0))
    }
}

/// The product at position `n`.
pub open spec fn product(w: Seq<Lexeme>, n: nat) -> Reading
    decreases remaining(w, n), 2nat,
{
    match atom(w, n) {
        Ok((first, used)) => after(used, factors(w, n + used, first)),
        Err(at) => Err(at),
    }
}

/// The sum whose first terms, read already, make `left`, and whose other
/// terms start at position `n`.
pub open spec fn terms(w: Seq<Lexeme>, n: nat, left: Expression) -> Reading
    decreases remaining(w, n), 3nat,
{
    if word(w, n) == Lexeme::Plus {
        match product(w, n + 1) {
            Ok((right, used)) => after(
                1 + used,
                terms(w, n + 1 + used, Expression::Sum(Box::new(left), Box::new(right))),
            ),
            Err(at) => Err(at),
        }
    } else {
        Ok((left, 0))
    }
}

/// The sum at position `n`.
pub open spec fn sum(w: Seq<Lexeme>, n: nat) -> Reading
    decreases remaining(w, n), 4nat,
{
    match product(w, n) {
        Ok((first, used)) => after(used, terms(w, n + used, first)),
        Err(at) => Err(at),
    }
}

/// The expression that the tokens `w` make as a whole: one sum, and behind it
/// the token `End`. Else the position of the token that cannot stand where it
/// does.
pub open spec fn sentence(w: Seq<Lexeme>) -> Result<Expression, nat> {
    match sum(w, 0) {
        Ok((tree, used)) => if used < w.len() && w[used as int] == Lexeme::End {
            Ok(tree)
        } else {
            Err(used)
        },
        Err(at) => Err(at),
    }
}

/// The expression that the text `s` writes. Else the position in `s` of the
/// first character that cannot stand where it does: the start of the token
/// that cannot stand where it does. Where the text ends too early, that is the
/// length of `s`.
pub open spec fn parse(s: Seq<char>) -> Result<Expression, nat> {
    let (w, starts) = scan(s, 0);
    match sentence(w) {
        Ok(tree) => Ok(tree),
        Err(n) => Err(starts[n as int]),
    }
}

/// Whether the tokens `w` stop with `End` or `Invalid`, as the tokens of a
/// text do.
pub open spec fn is_closed(w: Seq<Lexeme>) -> bool {
    w.len() >= 1 && is_last(w.last())
}

/// Whether the reading `r`, made at position `n`, stays in front of the last
/// token of `w`.
spec fn stays(w: Seq<Lexeme>, n: nat, r: Reading) -> bool {
    match r {
        Ok((_, used)) => n + used < w.len(),
        Err(at) => n <= at < w.len(),
    }
}

/// Reading an atom does not go past the token that closes the text.
proof fn lemma_atom_stays(w: Seq<Lexeme>, n: nat)
    requires
        is_closed(w),
        n < w.len(),
    ensures
        stays(w, n, atom(w, n)),
    decreases remaining(w, n), 0nat,
{
    if word(w, n) == Lexeme::Open {
        lemma_sum_stays(w, n + 1);
    }
}

/// Reading more factors does not go past the token that closes the text.
proof fn lemma_factors_stays(w: Seq<Lexeme>, n: nat, left: Expression)
    requires
        is_closed(w),
        n < w.len(),
    ensures
        stays(w, n, factors(w, n, left)),
    decreases remaining(w, n), 1nat,
{
    if word(w, n) == Lexeme::Star {
        lemma_atom_stays(w, n + 1);
        if let Ok((right, used)) = atom(w, n + 1) {
            lemma_factors_stays(
                w,
                n + 1 + used,
                Expression::Product(Box::new(left), Box::new(right)),
            );
        }
    }
}

/// Reading a product does not go past the token that closes the text.
proof fn lemma_product_stays(w: Seq<Lexeme>, n: nat)
    requires
        is_closed(w),
        n < w.len(),
    ensures
        stays(w, n, product(w, n)),
    decreases remaining(w, n), 2nat,
{
    lemma_atom_stays(w, n);
    if let Ok((first, used)) = atom(w, n) {
        lemma_factors_stays(w, n + used, first);
    }
}

/// Reading more terms does not go past the token that closes the text.
proof fn lemma_terms_stays(w: Seq<Lexeme>, n: nat, left: Expression)
    requires
        is_closed(w),
        n < w.len(),
    ensures
        stays(w, n, terms(w, n, left)),
    decreases remaining(w, n), 3nat,
{
    if word(w, n) == Lexeme::Plus {
        lemma_product_stays(w, n + 1);
        if let Ok((right, used)) = product(w, n + 1) {
            lemma_terms_stays(w, n + 1 + used, Expression::Sum(Box::new(left), Box::new(right)));
        }
    }
}

/// Reading a sum does not go past the token that closes the text.
proof fn lemma_sum_stays(w: Seq<Lexeme>, n: nat)
    requires
        is_closed(w),
        n < w.len(),
    ensures
        stays(w, n, sum(w, n)),
    decreases remaining(w, n), 4nat,
{
    lemma_product_stays(w, n);
    if let Ok((first, used)) = product(w, n) {
        lemma_terms_stays(w, n + used, first);
    }
}

/// The token that cannot stand where it does is one of the tokens.
pub proof fn lemma_sentence_error(w: Seq<Lexeme>)
    requires
        is_closed(w),
    ensures
        sentence(w) matches Err(at) ==> at < w.len(),
{
    lemma_sum_stays(w, 0);
}

/// The character that cannot stand where it does is one of the text, or the
/// text ends too early.
pub proof fn lemma_parse_error(s: Seq<char>)
    ensures
        parse(s) matches Err(at) ==> at <= s.len(),
{
    lemma_scan_shape(s, 0);
    lemma_sentence_error(scan(s, 0).0);
}

/// Whether `r` is the reading `reading`, made at position `n`.
pub open spec fn is_reading(r: Result<(Ope, usize), usize>, reading: Reading, n: usize) -> bool {
    match reading {
        Ok((tree, used)) => r matches Ok((t, next)) && t@ == tree && next == n + used,
        Err(at) => r matches Err(e) && e == at,
    }
}

/// Whether the positions in `r` lie in `n ..= len`.
pub open spec fn in_bounds(r: Result<(Ope, usize), usize>, n: usize, len: usize) -> bool {
    match r {
        Ok((_, next)) => n <= next <= len,
        Err(at) => n <= at <= len,
    }
}

/// Whether the token at position `n` is `lexeme`, one of the tokens that hold
/// nothing.
fn is_word(tokens: &Vec<Token>, n: usize, lexeme: &Token) -> (r: bool)
    requires
        lexeme@ !is Number,
        lexeme@ !is Symbol,
    ensures
        r == (word(lexemes(tokens@), n as nat) == lexeme@),
{
    let here = if n < tokens.len() {
        &tokens[n]
    } else {
        &Token::End
    };
    match (here, lexeme) {
        (Token::Plus, Token::Plus) => true,
        (Token::Star, Token::Star) => true,
        (Token::Caret, Token::Caret) => true,
        (Token::Open, Token::Open) => true,
        (Token::Close, Token::Close) => true,
        (Token::Variable, Token::Variable) => true,
        (Token::End, Token::End) => true,
        (Token::Invalid, Token::Invalid) => true,
        _ => false,
    }
}

/// Reads the atom at position `n`.
pub fn read_atom(tokens: &Vec<Token>, n: usize) -> (r: Result<(Ope, usize), usize>)
    ensures
        is_reading(r, atom(lexemes(tokens@), n as nat), n),
        n <= tokens.len() ==> in_bounds(r, n, tokens.len()),
    decreases tokens.len() - n, 0nat,
{
    if n >= tokens.len() {
        return Err(n);
    }
    match &tokens[n] {
        Token::Variable => {
            if is_word(tokens, n + 1, &Token::Caret) {
                if n + 2 < tokens.len() {
                    match &tokens[n + 2] {
                        Token::Number(power) => Ok((Ope::Pow(power.clone()), n + 3)),
                        _ => Err(n + 2),
                    }
                } else {
                    Err(n + 2)
                }
            } else {
                Ok((Ope::Pow(Decimal::from_i64(1)), n + 1))
            }
        },
        Token::Number(value) => Ok((Ope::Cst(Cst::Num(value.clone())), n + 1)),
        Token::Symbol(name) => Ok((Ope::Cst(Cst::Sem(*name)), n + 1)),
        Token::Open => {
            match read_sum(tokens, n + 1) {
                Ok((tree, next)) => {
                    if is_word(tokens, next, &Token::Close) {
                        Ok((tree, next + 1))
                    } else {
                        Err(next)
                    }
                },
                Err(at) => Err(at),
            }
        },
        _ => Err(n),
    }
}

/// Reads the product at position `n`.
pub fn read_product(tokens: &Vec<Token>, n: usize) -> (r: Result<(Ope, usize), usize>)
    ensures
        is_reading(r, product(lexemes(tokens@), n as nat), n),
        n <= tokens.len() ==> in_bounds(r, n, tokens.len()),
    decreases tokens.len() - n, 2nat,
{
    let ghost w = lexemes(tokens@);
    let (mut left, mut next) = match read_atom(tokens, n) {
        Ok(first) => first,
        Err(at) => {
            return Err(at);
        },
    };
    while is_word(tokens, next, &Token::Star)
        invariant
            w == lexemes(tokens@),
            n <= next <= tokens.len(),
            product(w, n as nat) == after((next - n) as nat, factors(w, next as nat, left@)),
        decreases tokens.len() - next,
    {
        match read_atom(tokens, next + 1) {
            Ok((right, behind)) => {
                left = Ope::Mul(Rc::new(left), Rc::new(right));
                next = behind;
            },
            Err(at) => {
                return Err(at);
            },
        }
    }
    Ok((left, next))
}

/// Reads the sum at position `n`.
pub fn read_sum(tokens: &Vec<Token>, n: usize) -> (r: Result<(Ope, usize), usize>)
    ensures
        is_reading(r, sum(lexemes(tokens@), n as nat), n),
        n <= tokens.len() ==> in_bounds(r, n, tokens.len()),
    decreases tokens.len() - n, 4nat,
{
    let ghost w = lexemes(tokens@);
    let (mut left, mut next) = match read_product(tokens, n) {
        Ok(first) => first,
        Err(at) => {
            return Err(at);
        },
    };
    while is_word(tokens, next, &Token::Plus)
        invariant
            w == lexemes(tokens@),
            n <= next <= tokens.len(),
            sum(w, n as nat) == after((next - n) as nat, terms(w, next as nat, left@)),
        decreases tokens.len() - next,
    {
        match read_product(tokens, next + 1) {
            Ok((right, behind)) => {
                left = Ope::Add(Rc::new(left), Rc::new(right));
                next = behind;
            },
            Err(at) => {
                return Err(at);
            },
        }
    }
    Ok((left, next))
}

/// Reads the tokens as one expression.
pub fn read_sentence(tokens: &Vec<Token>) -> (r: Result<Ope, usize>)
    ensures
        match sentence(lexemes(tokens@)) {
            Ok(tree) => r matches Ok(t) && t@ == tree,
            Err(at) => r matches Err(e) && e == at,
        },
{
    match read_sum(tokens, 0) {
        Ok((tree, next)) => {
            if next < tokens.len() && is_word(tokens, next, &Token::End) {
                Ok(tree)
            } else {
                Err(next)
            }
        },
        Err(at) => Err(at),
    }
}

} // verus!
