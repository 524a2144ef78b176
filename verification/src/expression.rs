//! The expression tree as a mathematical value, and its derivative.
use crate::decimal::{lemma_minus_one_reduced, DecimalValue};
use vstd::prelude::*;

verus! {

/// What a constant leaf holds.
pub enum Value {
    /// A number.
    Numeric(DecimalValue),
    /// A named constant, one character long.
    Symbolic(char),
}

/// An arithmetic expression in the one variable `x`.
pub enum Expression {
    /// The sum of two expressions.
    Sum(Box<Expression>, Box<Expression>),
    /// The product of two expressions.
    Product(Box<Expression>, Box<Expression>),
    /// `x` to a fixed power; `x` alone is the power one.
    PowerOfVariable(DecimalValue),
    /// A value that does not depend on `x`.
    Constant(Value),
}

impl Expression {
    /// The number `n` as an expression.
    pub open spec fn number(n: int) -> Expression {
        Expression::Constant(Value::Numeric(DecimalValue::integer(n)))
    }

    /// Whether every number in the tree is written in the fewest places, as
    /// the numbers of a tree in memory are.
    pub open spec fn is_reduced(self) -> bool
        decreases self,
    {
        match self {
            Expression::Sum(f, g) => f.is_reduced() && g.is_reduced(),
            Expression::Product(f, g) => f.is_reduced() && g.is_reduced(),
            Expression::PowerOfVariable(n) => n.is_reduced(),
            Expression::Constant(Value::Numeric(n)) => n.is_reduced(),
            Expression::Constant(Value::Symbolic(_)) => true,
        }
    }
}

/// The first derivative of `e` with respect to `x`, by the sum, product, power
/// and constant rules, each applied as it stands: nothing is simplified.
pub open spec fn derivative(e: Expression) -> Expression
    decreases e,
{
    match e {
        Expression::Sum(f, g) => Expression::Sum(
            Box::new(derivative(*f)),
            Box::new(derivative(*g)),
        ),
        Expression::Product(f, g) => Expression::Sum(
            Box::new(Expression::Product(Box::new(derivative(*f)), g)),
            Box::new(Expression::Product(f, Box::new(derivative(*g)))),
        ),
        Expression::PowerOfVariable(n) => Expression::Product(
            Box::new(Expression::Constant(Value::Numeric(n))),
            Box::new(Expression::PowerOfVariable(n.minus_one())),
        ),
        Expression::Constant(_) => Expression::number(0),
    }
}

/// The constant rule: the derivative of a constant, a number or a name, is
/// the number zero.
pub proof fn lemma_constant_rule(value: Value)
    ensures
        derivative(Expression::Constant(value)) == Expression::number(0),
{
}

/// The sum rule: the derivative of a sum is the sum of the derivatives.
pub proof fn lemma_sum_rule(f: Expression, g: Expression)
    ensures
        derivative(Expression::Sum(Box::new(f), Box::new(g))) == Expression::Sum(
            Box::new(derivative(f)),
            Box::new(derivative(g)),
        ),
{
}

/// The product rule: the derivative of `f * g` is `f' * g + f * g'`, with `f`
/// and `g` as they were.
pub proof fn lemma_product_rule(f: Expression, g: Expression)
    ensures
        derivative(Expression::Product(Box::new(f), Box::new(g))) == Expression::Sum(
            Box::new(Expression::Product(Box::new(derivative(f)), Box::new(g))),
            Box::new(Expression::Product(Box::new(f), Box::new(derivative(g)))),
        ),
{
}

/// The power rule: the derivative of `x^n` is `n * x^(n - 1)`, for every `n`;
/// no case is simplified.
pub proof fn lemma_power_rule(n: DecimalValue)
    ensures
        derivative(Expression::PowerOfVariable(n)) == Expression::Product(
            Box::new(Expression::Constant(Value::Numeric(n))),
            Box::new(Expression::PowerOfVariable(n.minus_one())),
        ),
{
}

/// The derivative of a tree whose numbers are written in the fewest places
/// is such a tree.
pub proof fn lemma_derivative_reduced(e: Expression)
    requires
        e.is_reduced(),
    ensures
        derivative(e).is_reduced(),
    decreases e,
{
    reveal_with_fuel(Expression::is_reduced, 3);
    match e {
        Expression::Sum(f, g) => {
            lemma_derivative_reduced(*f);
            lemma_derivative_reduced(*g);
        },
        Expression::Product(f, g) => {
            lemma_derivative_reduced(*f);
            lemma_derivative_reduced(*g);
        },
        Expression::PowerOfVariable(n) => {
            lemma_minus_one_reduced(n);
        },
        Expression::Constant(_) => {},
    }
}

} // verus!
