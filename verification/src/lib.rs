//! Symbolic differentiation of arithmetic expressions in one variable.
//!
//! An expression is read from text into a tree ([`Ope::from_str`]), and a tree
//! is turned into the tree of its first derivative ([`Ope::grad`]).
//!
//! What the trees mean is said in [`expression`]. What a text means is said in
//! [`lexing`] (from characters to tokens) and [`parsing`] (from tokens to a
//! tree), and once more, without a word on how to read, in [`grammar`]. That
//! white space between tokens says nothing is proved in [`spacing`], and what
//! it means that a text is refused where it is, in [`refusal`]. Numbers are
//! exact: see [`decimal`].
use crate::decimal::Decimal;
use crate::expression::{derivative, Expression, Value};
use crate::grammar::{is_text, theorem_parse_follows_grammar};
use crate::lexing::{lemma_scan_shape, lexemes, tokenize};
use crate::parsing::{lemma_sentence_error, parse, read_sentence};
use crate::text::to_chars;
use std::rc::Rc;
use vstd::prelude::*;
use vstd::std_specs::cmp::PartialEqSpecImpl;

pub mod decimal;
pub mod digits;
pub mod expression;
pub mod grammar;
pub mod lexing;
pub mod literal;
pub mod parsing;
pub mod refusal;
pub mod spacing;
pub mod text;

verus! {

/// Why an expression could not be read.
#[derive(Debug, PartialEq)]
pub enum Error {
    /// The text is not an expression. Holds the text from the first character
    /// that cannot stand where it does to the end.
    ParseErr(String),
}

/// A constant: a number or a named constant.
#[derive(Debug)]
pub enum Cst {
    /// A number.
    Num(Decimal),
    /// A named constant, such as `a`.
    Sem(char),
}

/// An expression tree. Subtrees are shared, never changed.
#[derive(Debug)]
pub enum Ope {
    /// The sum of two expressions.
    Add(Rc<Ope>, Rc<Ope>),
    /// The product of two expressions.
    Mul(Rc<Ope>, Rc<Ope>),
    /// The variable to a power; the variable alone is the power one.
    Pow(Decimal),
    /// A constant.
    Cst(Cst),
}

impl View for Cst {
    type V = Value;

    open spec fn view(&self) -> Value {
        match self {
            Cst::Num(n) => Value::Numeric(n@),
            Cst::Sem(c) => Value::Symbolic(*c),
        }
    }
}

impl View for Ope {
    type V = Expression;

    open spec fn view(&self) -> Expression {
        self.expression()
    }
}

impl Error {
    /// What went wrong, in words.
    pub fn message(&self) -> (r: String)
        ensures
            r@ == "Cannot parse expression"@,
    {
        "Cannot parse expression".to_owned()
    }
}

impl Ope {
    /// The expression that this tree stands for.
    pub open spec fn expression(self) -> Expression
        decreases self,
    {
        match self {
            Ope::Add(f, g) => Expression::Sum(Box::new(f.expression()), Box::new(g.expression())),
            Ope::Mul(f, g) => Expression::Product(
                Box::new(f.expression()),
                Box::new(g.expression()),
            ),
            Ope::Pow(n) => Expression::PowerOfVariable(n@),
            Ope::Cst(c) => Expression::Constant(c@),
        }
    }

    /// The derivative of this expression with respect to its variable, by the
    /// sum, product, power and constant rules. Nothing is simplified.
    ///
    /// The tree is left as it is. In the derivative of a product the two
    /// factors are the subtrees of `self`, shared.
    ///
    /// Each level of the tree takes a level of the call stack.
    pub fn grad(&self) -> (r: Self)
        ensures
            r@ == derivative(self@),
            self matches Ope::Mul(f, g) ==> r matches Ope::Add(left, right) && *left matches Ope::Mul(
                _,
                kept_g,
            ) && *right matches Ope::Mul(kept_f, _) && kept_f == f && kept_g == g,
        decreases self,
    {
        proof {
            reveal_with_fuel(Ope::expression, 3);
        }
        match self {
            Ope::Add(f, g) => Ope::Add(Rc::new(f.grad()), Rc::new(g.grad())),
            Ope::Mul(f, g) => {
                let left = Ope::Mul(Rc::new(f.grad()), g.clone());
                let right = Ope::Mul(f.clone(), Rc::new(g.grad()));
                Ope::Add(Rc::new(left), Rc::new(right))
            },
            Ope::Pow(n) => {
                let factor = Ope::Cst(Cst::Num(n.clone()));
                let power = Ope::Pow(n.minus_one());
                Ope::Mul(Rc::new(factor), Rc::new(power))
            },
            Ope::Cst(_) => Ope::Cst(Cst::Num(Decimal::from_i64(0))),
        }
    }

    /// Reads an expression from text.
    ///
    /// The text is a sum of products of atoms. An atom is the variable `x`,
    /// which may take a power (`x^2.5`), a number (`12`, `0.5`), a named
    /// constant (a letter other than `x`), or a sum in parentheses. White
    /// space may stand between tokens. The whole text has to be one
    /// expression: where it is not, the error holds the text from the first
    /// character that cannot stand where it does to the end.
    ///
    /// The first clause says what is returned for every text, by the reading
    /// of [`parsing`]; the second says once more when the text is accepted, and
    /// as which tree, by the grammar of [`grammar`] alone.
    ///
    /// Parentheses may nest to any depth, and a sum or a product may have any
    /// number of parts; each level of nesting takes a level of the call stack,
    /// and each part one more level of the tree.
    pub fn from_str(s: &str) -> (r: Result<Ope, Error>)
        ensures
            match parse(s@) {
                Ok(tree) => r matches Ok(t) && t@ == tree,
                Err(at) => r matches Err(Error::ParseErr(rest)) && rest@ == s@.skip(at as int),
            },
            forall|tree: Expression| is_text(s@, tree) <==> (r matches Ok(t) && t@ == tree),
    {
        proof {
            assert forall|tree: Expression|
                is_text(s@, tree) <==> parse(s@) == Ok::<Expression, nat>(tree) by {
                theorem_parse_follows_grammar(s@, tree);
            }
        }
        let chars = to_chars(s);
        let (tokens, starts) = tokenize(&chars);
        match read_sentence(&tokens) {
            Ok(tree) => Ok(tree),
            Err(n) => {
                proof {
                    lemma_scan_shape(s@, 0);
                    lemma_sentence_error(lexemes(tokens@));
                }
                let rest = s.substring_char(starts[n], chars.len());
                Err(Error::ParseErr(rest.to_owned()))
            },
        }
    }

    /// Whether the two trees stand for the same expression.
    pub fn same_as(&self, other: &Ope) -> (same: bool)
        ensures
            same == (self@ == other@),
        decreases self,
    {
        match (self, other) {
            (Ope::Add(f, g), Ope::Add(h, k)) => f.same_as(h) && g.same_as(k),
            (Ope::Mul(f, g), Ope::Mul(h, k)) => f.same_as(h) && g.same_as(k),
            (Ope::Pow(m), Ope::Pow(n)) => m == n,
            (Ope::Cst(a), Ope::Cst(b)) => a == b,
            _ => false,
        }
    }
}

impl std::str::FromStr for Ope {
    type Err = Error;

    /// Reads an expression from text, as [`Ope::from_str`] does.
    fn from_str(s: &str) -> (r: Result<Ope, Error>)
        ensures
            match parse(s@) {
                Ok(tree) => r matches Ok(t) && t@ == tree,
                Err(at) => r matches Err(Error::ParseErr(rest)) && rest@ == s@.skip(at as int),
            },
            forall|tree: Expression| is_text(s@, tree) <==> (r matches Ok(t) && t@ == tree),
    {
        Ope::from_str(s)
    }
}

impl PartialEq for Cst {
    /// Whether the two constants are the same.
    fn eq(&self, other: &Cst) -> (same: bool) {
        match (self, other) {
            (Cst::Num(a), Cst::Num(b)) => a == b,
            (Cst::Sem(a), Cst::Sem(b)) => *a == *b,
            _ => false,
        }
    }
}

impl PartialEqSpecImpl for Cst {
    open spec fn obeys_eq_spec() -> bool {
        true
    }

    open spec fn eq_spec(&self, other: &Cst) -> bool {
        self@ == other@
    }
}

impl PartialEq for Ope {
    /// Whether the two trees stand for the same expression.
    fn eq(&self, other: &Ope) -> (same: bool) {
        self.same_as(other)
    }
}

impl PartialEqSpecImpl for Ope {
    open spec fn obeys_eq_spec() -> bool {
        true
    }

    open spec fn eq_spec(&self, other: &Ope) -> bool {
        self@ == other@
    }
}

/// Differentiating depends on nothing but the expression: two trees that
/// stand for one expression, or one tree taken twice, have one derivative.
pub proof fn lemma_grad_repeatable(first: Ope, second: Ope)
    requires
        first@ == second@,
    ensures
        derivative(first@) == derivative(second@),
{
}

} // verus!
