//! The grammar of expressions, as a relation between tokens and trees.
//!
//! Each predicate says that a string of tokens, all of it, writes a tree at
//! one level of the grammar:
//!
//! ```text
//! sum     := product | sum '+' product
//! product := atom | product '*' atom
//! atom    := 'x' | 'x' '^' number | number | letter | '(' sum ')'
//! ```
//!
//! The predicates say nothing of how a text is read. That the reader of
//! [`crate::parsing`] accepts these strings and no others, each with the tree
//! that the grammar gives it, is proved at the end of this file.
use crate::decimal::DecimalValue;
use crate::expression::{Expression, Value};
use crate::lexing::{lemma_scan_shape, scan, Lexeme};
use crate::parsing::{
    after, atom, factors, parse, product, remaining, sentence, sum, terms, word,
};
use vstd::prelude::*;

verus! {

/// Whether the tokens `w` write `tree` as an atom.
pub open spec fn is_atom(w: Seq<Lexeme>, tree: Expression) -> bool
    decreases w.len(), 0nat,
{
    ||| (w =~= seq![Lexeme::Variable] && tree == Expression::PowerOfVariable(
        DecimalValue::integer(1),
    ))
    ||| (tree matches Expression::PowerOfVariable(power) && w =~= seq![
        Lexeme::Variable,
        Lexeme::Caret,
        Lexeme::Number(power),
    ])
    ||| (tree matches Expression::Constant(Value::Numeric(value)) && w =~= seq![
        Lexeme::Number(value),
    ])
    ||| (tree matches Expression::Constant(Value::Symbolic(name)) && w =~= seq![
        Lexeme::Symbol(name),
    ])
    ||| (w.len() >= 2 && w.first() == Lexeme::Open && w.last() == Lexeme::Close && is_sum(
        w.subrange(1, w.len() - 1),
        tree,
    ))
}

/// Whether the tokens `w` write `tree` as a product: an atom, or a product,
/// the token `*` and an atom.
pub open spec fn is_product(w: Seq<Lexeme>, tree: Expression) -> bool
    decreases w.len(), 1nat,
{
    ||| is_atom(w, tree)
    ||| (tree matches Expression::Product(left, right) && exists|k: int|
        0 <= k < w.len() && #[trigger] w[k] == Lexeme::Star && is_product(w.subrange(0, k), *left)
            && is_atom(w.subrange(k + 1, w.len() as int), *right))
}

/// Whether the tokens `w` write `tree` as a sum: a product, or a sum, the
/// token `+` and a product.
pub open spec fn is_sum(w: Seq<Lexeme>, tree: Expression) -> bool
    decreases w.len(), 2nat,
{
    ||| is_product(w, tree)
    ||| (tree matches Expression::Sum(left, right) && exists|k: int|
        0 <= k < w.len() && #[trigger] w[k] == Lexeme::Plus && is_sum(w.subrange(0, k), *left)
            && is_product(w.subrange(k + 1, w.len() as int), *right))
}

/// Whether the tokens `w` write `tree` as a whole: a sum, and behind it the
/// end.
pub open spec fn is_sentence(w: Seq<Lexeme>, tree: Expression) -> bool {
    exists|n: int|
        0 <= n < w.len() && #[trigger] w[n] == Lexeme::End && is_sum(w.subrange(0, n), tree)
}

/// Whether the text `s` writes `tree`: its tokens stop with `End`, so that no
/// character of it starts no token, and the tokens before `End` write `tree`
/// as a sum.
pub open spec fn is_text(s: Seq<char>, tree: Expression) -> bool {
    let w = scan(s, 0).0;
    w.len() >= 1 && w.last() == Lexeme::End && is_sum(w.drop_last(), tree)
}

/// How many steps lie between spelling `tree` at one level of the grammar
/// (the atom is level zero, the product one, the sum two) and spelling its
/// subtrees: a sum is spelled as a sum at once, as an atom by way of the sum
/// in its parentheses, and as a product by way of that atom.
pub open spec fn spelling_steps(tree: Expression, level: nat) -> nat {
    match tree {
        Expression::Sum(_, _) => ((level + 1) % 3) as nat,
        Expression::Product(_, _) => ((level + 2) % 3) as nat,
        _ => level,
    }
}

/// The tokens that write `tree` as an atom: a leaf as it is, a sum or a
/// product in parentheses.
pub open spec fn spell_atom(tree: Expression) -> Seq<Lexeme>
    decreases tree, spelling_steps(tree, 0),
{
    match tree {
        Expression::PowerOfVariable(power) => if power == DecimalValue::integer(1) {
            seq![Lexeme::Variable]
        } else {
            seq![Lexeme::Variable, Lexeme::Caret, Lexeme::Number(power)]
        },
        Expression::Constant(Value::Numeric(value)) => seq![Lexeme::Number(value)],
        Expression::Constant(Value::Symbolic(name)) => seq![Lexeme::Symbol(name)],
        _ => seq![Lexeme::Open] + spell_sum(tree) + seq![Lexeme::Close],
    }
}

/// The tokens that write `tree` as a product.
pub open spec fn spell_product(tree: Expression) -> Seq<Lexeme>
    decreases tree, spelling_steps(tree, 1),
{
    match tree {
        Expression::Product(left, right) => spell_product(*left) + seq![Lexeme::Star] + spell_atom(
            *right,
        ),
        _ => spell_atom(tree),
    }
}

/// The tokens that write `tree` as a sum, with no more parentheses than the
/// tree needs.
pub open spec fn spell_sum(tree: Expression) -> Seq<Lexeme>
    decreases tree, spelling_steps(tree, 2),
{
    match tree {
        Expression::Sum(left, right) => spell_sum(*left) + seq![Lexeme::Plus] + spell_product(
            *right,
        ),
        _ => spell_product(tree),
    }
}

/// The tokens of `w` from position `from` up to position `to`.
pub open spec fn span(w: Seq<Lexeme>, from: nat, to: nat) -> Seq<Lexeme> {
    w.subrange(from as int, to as int)
}

/// What is read as an atom is an atom of the grammar.
pub(crate) proof fn lemma_atom_sound(w: Seq<Lexeme>, n: nat)
    ensures
        atom(w, n) matches Ok((tree, used)) ==> n + used <= w.len() && is_atom(
            span(w, n, n + used),
            tree,
        ),
    decreases remaining(w, n), 0nat,
{
    if let Ok((tree, used)) = atom(w, n) {
        let v = span(w, n, n + used);
        match word(w, n) {
            Lexeme::Variable => {
                if word(w, n + 1) == Lexeme::Caret {
                    assert(v =~= seq![Lexeme::Variable, Lexeme::Caret, word(w, n + 2)]);
                } else {
                    assert(v =~= seq![Lexeme::Variable]);
                }
            },
            Lexeme::Number(value) => {
                assert(v =~= seq![Lexeme::Number(value)]);
            },
            Lexeme::Symbol(name) => {
                assert(v =~= seq![Lexeme::Symbol(name)]);
            },
            Lexeme::Open => {
                lemma_sum_sound(w, n + 1);
                assert(v.subrange(1, v.len() - 1) =~= span(w, n + 1, (n + used - 1) as nat));
            },
            _ => {},
        }
    }
}

/// What is read as more factors of a product makes a product of the grammar.
proof fn lemma_factors_sound(w: Seq<Lexeme>, from: nat, n: nat, left: Expression)
    requires
        from <= n <= w.len(),
        is_product(span(w, from, n), left),
    ensures
        factors(w, n, left) matches Ok((tree, more)) ==> n + more <= w.len() && is_product(
            span(w, from, n + more),
            tree,
        ),
    decreases remaining(w, n), 1nat,
{
    if factors(w, n, left) is Ok && word(w, n) == Lexeme::Star {
        lemma_atom_sound(w, n + 1);
        let (right, used) = atom(w, n + 1)->Ok_0;
        let next = n + 1 + used;
        let both = Expression::Product(Box::new(left), Box::new(right));
        let v = span(w, from, next);
        let k = n - from;
        assert(v[k] == Lexeme::Star);
        assert(v.subrange(0, k) =~= span(w, from, n));
        assert(v.subrange(k + 1, v.len() as int) =~= span(w, n + 1, next));
        assert(is_product(v, both));
        lemma_factors_sound(w, from, next, both);
    }
}

/// What is read as a product is a product of the grammar.
pub(crate) proof fn lemma_product_sound(w: Seq<Lexeme>, n: nat)
    ensures
        product(w, n) matches Ok((tree, used)) ==> n + used <= w.len() && is_product(
            span(w, n, n + used),
            tree,
        ),
    decreases remaining(w, n), 2nat,
{
    if let Ok((first, used)) = atom(w, n) {
        lemma_atom_sound(w, n);
        lemma_factors_sound(w, n, n + used, first);
    }
}

/// What is read as more terms of a sum makes a sum of the grammar.
proof fn lemma_terms_sound(w: Seq<Lexeme>, from: nat, n: nat, left: Expression)
    requires
        from <= n <= w.len(),
        is_sum(span(w, from, n), left),
    ensures
        terms(w, n, left) matches Ok((tree, more)) ==> n + more <= w.len() && is_sum(
            span(w, from, n + more),
            tree,
        ),
    decreases remaining(w, n), 3nat,
{
    if terms(w, n, left) is Ok && word(w, n) == Lexeme::Plus {
        lemma_product_sound(w, n + 1);
        let (right, used) = product(w, n + 1)->Ok_0;
        let next = n + 1 + used;
        let both = Expression::Sum(Box::new(left), Box::new(right));
        let v = span(w, from, next);
        let k = n - from;
        assert(v[k] == Lexeme::Plus);
        assert(v.subrange(0, k) =~= span(w, from, n));
        assert(v.subrange(k + 1, v.len() as int) =~= span(w, n + 1, next));
        assert(is_sum(v, both));
        lemma_terms_sound(w, from, next, both);
    }
}

/// What is read as a sum is a sum of the grammar.
pub(crate) proof fn lemma_sum_sound(w: Seq<Lexeme>, n: nat)
    ensures
        sum(w, n) matches Ok((tree, used)) ==> n + used <= w.len() && is_sum(
            span(w, n, n + used),
            tree,
        ),
    decreases remaining(w, n), 4nat,
{
    if let Ok((first, used)) = product(w, n) {
        lemma_product_sound(w, n);
        lemma_terms_sound(w, n, n + used, first);
    }
}

/// An atom of the grammar with no `^` behind it is read as that atom.
proof fn lemma_atom_complete(w: Seq<Lexeme>, i: nat, j: nat, tree: Expression)
    requires
        i <= j <= w.len(),
        is_atom(span(w, i, j), tree),
        word(w, j) != Lexeme::Caret,
    ensures
        atom(w, i) == Ok::<(Expression, nat), nat>((tree, (j - i) as nat)),
    decreases j - i, 0nat,
{
    let v = span(w, i, j);
    if v.len() >= 1 {
        assert(v[0] == w[i as int]);
    }
    if v.len() >= 2 && v.first() == Lexeme::Open && v.last() == Lexeme::Close && is_sum(
        v.subrange(1, v.len() - 1),
        tree,
    ) {
        let inner = (j - 1) as nat;
        assert(v.subrange(1, v.len() - 1) =~= span(w, i + 1, inner));
        assert(v.last() == w[inner as int]);
        lemma_sum_complete(w, i + 1, inner, tree);
    } else if v.len() == 3 {
        assert(v[1] == w[i + 1 as int]);
        assert(v[2] == w[i + 2 as int]);
    }
}

/// A product of the grammar with no `^` behind it is read as the first
/// factors of a product.
proof fn lemma_product_complete(w: Seq<Lexeme>, i: nat, j: nat, tree: Expression)
    requires
        i <= j <= w.len(),
        is_product(span(w, i, j), tree),
        word(w, j) != Lexeme::Caret,
    ensures
        product(w, i) == after((j - i) as nat, factors(w, j, tree)),
    decreases j - i, 1nat,
{
    let v = span(w, i, j);
    if is_atom(v, tree) {
        lemma_atom_complete(w, i, j, tree);
    } else {
        let (left, right) = (*tree->Product_0, *tree->Product_1);
        let k = choose|k: int|
            0 <= k < v.len() && #[trigger] v[k] == Lexeme::Star && is_product(v.subrange(0, k), left)
                && is_atom(v.subrange(k + 1, v.len() as int), right);
        let star = (i + k) as nat;
        assert(v[k] == w[star as int]);
        assert(v.subrange(0, k) =~= span(w, i, star));
        assert(v.subrange(k + 1, v.len() as int) =~= span(w, star + 1, j));
        lemma_product_complete(w, i, star, left);
        lemma_atom_complete(w, star + 1, j, right);
    }
}

/// A sum of the grammar with neither `^` nor `*` behind it is read as the
/// first terms of a sum.
proof fn lemma_sum_complete(w: Seq<Lexeme>, i: nat, j: nat, tree: Expression)
    requires
        i <= j <= w.len(),
        is_sum(span(w, i, j), tree),
        word(w, j) != Lexeme::Caret,
        word(w, j) != Lexeme::Star,
    ensures
        sum(w, i) == after((j - i) as nat, terms(w, j, tree)),
    decreases j - i, 2nat,
{
    let v = span(w, i, j);
    if is_product(v, tree) {
        lemma_product_complete(w, i, j, tree);
    } else {
        let (left, right) = (*tree->Sum_0, *tree->Sum_1);
        let k = choose|k: int|
            0 <= k < v.len() && #[trigger] v[k] == Lexeme::Plus && is_sum(v.subrange(0, k), left)
                && is_product(v.subrange(k + 1, v.len() as int), right);
        let plus = (i + k) as nat;
        assert(v[k] == w[plus as int]);
        assert(v.subrange(0, k) =~= span(w, i, plus));
        assert(v.subrange(k + 1, v.len() as int) =~= span(w, plus + 1, j));
        lemma_sum_complete(w, i, plus, left);
        lemma_product_complete(w, plus + 1, j, right);
    }
}

/// The reader accepts the sentences of the grammar and no other string of
/// tokens, and gives each the tree that the grammar gives it.
pub proof fn theorem_reader_follows_grammar(w: Seq<Lexeme>, tree: Expression)
    ensures
        sentence(w) == Ok::<Expression, nat>(tree) <==> is_sentence(w, tree),
{
    if sentence(w) == Ok::<Expression, nat>(tree) {
        lemma_sum_sound(w, 0);
        let used = sum(w, 0)->Ok_0.1;
        assert(w[used as int] == Lexeme::End);
        assert(span(w, 0, used) == w.subrange(0, used as int));
    }
    if is_sentence(w, tree) {
        let n = choose|n: int|
            0 <= n < w.len() && #[trigger] w[n] == Lexeme::End && is_sum(w.subrange(0, n), tree);
        assert(span(w, 0, n as nat) == w.subrange(0, n));
        lemma_sum_complete(w, 0, n as nat, tree);
    }
}

/// A string of tokens writes at most one tree.
pub proof fn theorem_one_tree(w: Seq<Lexeme>, first: Expression, second: Expression)
    requires
        is_sentence(w, first),
        is_sentence(w, second),
    ensures
        first == second,
{
    theorem_reader_follows_grammar(w, first);
    theorem_reader_follows_grammar(w, second);
}

/// A text is read as an expression exactly where the grammar says that it
/// writes one, and is read as the tree that the grammar gives it.
pub proof fn theorem_parse_follows_grammar(s: Seq<char>, tree: Expression)
    ensures
        parse(s) == Ok::<Expression, nat>(tree) <==> is_text(s, tree),
{
    let w = scan(s, 0).0;
    lemma_scan_shape(s, 0);
    theorem_reader_follows_grammar(w, tree);
    if is_text(s, tree) {
        assert(w[w.len() - 1] == Lexeme::End);
        assert(w.drop_last() == w.subrange(0, w.len() - 1));
    }
    if is_sentence(w, tree) {
        let n = choose|n: int|
            0 <= n < w.len() && #[trigger] w[n] == Lexeme::End && is_sum(w.subrange(0, n), tree);
        assert(n == w.len() - 1);
        assert(w.drop_last() == w.subrange(0, n));
    }
}

/// A text writes at most one tree.
pub proof fn theorem_text_writes_one_tree(s: Seq<char>, first: Expression, second: Expression)
    requires
        is_text(s, first),
        is_text(s, second),
    ensures
        first == second,
{
    theorem_parse_follows_grammar(s, first);
    theorem_parse_follows_grammar(s, second);
}

/// What is spelled as an atom is an atom of the grammar.
proof fn lemma_spelled_atom(tree: Expression)
    ensures
        is_atom(spell_atom(tree), tree),
    decreases tree, spelling_steps(tree, 0),
{
    if tree is Sum || tree is Product {
        lemma_spelled_sum(tree);
        let w = spell_atom(tree);
        assert(w.subrange(1, w.len() - 1) =~= spell_sum(tree));
    }
}

/// What is spelled as a product is a product of the grammar.
proof fn lemma_spelled_product(tree: Expression)
    ensures
        is_product(spell_product(tree), tree),
    decreases tree, spelling_steps(tree, 1),
{
    match tree {
        Expression::Product(left, right) => {
            lemma_spelled_product(*left);
            lemma_spelled_atom(*right);
            let w = spell_product(tree);
            let k = spell_product(*left).len() as int;
            assert(w[k] == Lexeme::Star);
            assert(w.subrange(0, k) =~= spell_product(*left));
            assert(w.subrange(k + 1, w.len() as int) =~= spell_atom(*right));
        },
        _ => {
            lemma_spelled_atom(tree);
        },
    }
}

/// What is spelled as a sum is a sum of the grammar.
proof fn lemma_spelled_sum(tree: Expression)
    ensures
        is_sum(spell_sum(tree), tree),
    decreases tree, spelling_steps(tree, 2),
{
    match tree {
        Expression::Sum(left, right) => {
            lemma_spelled_sum(*left);
            lemma_spelled_product(*right);
            let w = spell_sum(tree);
            let k = spell_sum(*left).len() as int;
            assert(w[k] == Lexeme::Plus);
            assert(w.subrange(0, k) =~= spell_sum(*left));
            assert(w.subrange(k + 1, w.len() as int) =~= spell_product(*right));
        },
        _ => {
            lemma_spelled_product(tree);
        },
    }
}

/// Every expression can be written, and what is written is read back as it
/// was: the tokens that spell a tree, with the end behind them, are read as
/// that tree.
pub proof fn theorem_spelled_is_read(tree: Expression)
    ensures
        sentence(spell_sum(tree).push(Lexeme::End)) == Ok::<Expression, nat>(tree),
{
    let w = spell_sum(tree).push(Lexeme::End);
    let n = spell_sum(tree).len() as int;
    lemma_spelled_sum(tree);
    assert(w[n] == Lexeme::End);
    assert(w.subrange(0, n) =~= spell_sum(tree));
    theorem_reader_follows_grammar(w, tree);
}

} // verus!
