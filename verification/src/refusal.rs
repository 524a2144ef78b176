//! Where a text is refused.
//!
//! The reader stops at the first token that cannot stand where it does. Two
//! theorems say what that means, without a word on how the reader works: no
//! sentence starts with the tokens up to and including that token, and some
//! sentence starts with the tokens in front of it.
use crate::decimal::DecimalValue;
use crate::expression::Expression;
use crate::grammar::{
    is_sentence, lemma_atom_sound, lemma_product_sound, lemma_sum_sound,
    theorem_reader_follows_grammar,
};
use crate::lexing::Lexeme;
use crate::parsing::{atom, factors, product, remaining, sentence, sum, terms, word, Reading};
use vstd::prelude::*;

verus! {

/// Whether the tokens `w` and `v` are alike in front of position `m`.
pub open spec fn alike_before(w: Seq<Lexeme>, v: Seq<Lexeme>, m: nat) -> bool {
    m <= w.len() && m <= v.len() && forall|j: int| 0 <= j < m ==> w[j] == v[j]
}

/// The last position that the reading `r`, made at position `n`, has looked
/// at: the position behind the phrase, or that of the token that cannot
/// stand where it does.
spec fn reach(n: nat, r: Reading) -> nat {
    match r {
        Ok((_, used)) => n + used,
        Err(at) => at,
    }
}

/// Whether `lexeme` ends any phrase in front of it: it is none of `^`, `*`
/// and `+`.
spec fn is_stop(lexeme: Lexeme) -> bool {
    lexeme != Lexeme::Caret && lexeme != Lexeme::Star && lexeme != Lexeme::Plus
}

/// Whether the tokens `v` are like `w` as far as the reading `r` of `w`, made
/// at position `n`, has looked: they are alike in front of position `m`, and
/// the reading has not looked at `m`, or has found a phrase that ends there,
/// where `v` has a token that ends any phrase.
spec fn covers(w: Seq<Lexeme>, v: Seq<Lexeme>, m: nat, n: nat, r: Reading) -> bool {
    &&& alike_before(w, v, m)
    &&& reach(n, r) < m || (reach(n, r) == m && r is Ok && is_stop(word(v, m)))
}

/// Reading an atom looks no further back than where it starts.
proof fn lemma_atom_reach(w: Seq<Lexeme>, n: nat)
    ensures
        n <= reach(n, atom(w, n)),
    decreases remaining(w, n), 0nat,
{
    if word(w, n) == Lexeme::Open {
        lemma_sum_reach(w, n + 1);
    }
}

/// Reading more factors looks no further back than where it starts.
proof fn lemma_factors_reach(w: Seq<Lexeme>, n: nat, left: Expression)
    ensures
        n <= reach(n, factors(w, n, left)),
    decreases remaining(w, n), 1nat,
{
    if word(w, n) == Lexeme::Star {
        lemma_atom_reach(w, n + 1);
        if let Ok((right, used)) = atom(w, n + 1) {
            lemma_factors_reach(
                w,
                n + 1 + used,
                Expression::Product(Box::new(left), Box::new(right)),
            );
        }
    }
}

/// Reading a product looks no further back than where it starts.
proof fn lemma_product_reach(w: Seq<Lexeme>, n: nat)
    ensures
        n <= reach(n, product(w, n)),
    decreases remaining(w, n), 2nat,
{
    lemma_atom_reach(w, n);
    if let Ok((first, used)) = atom(w, n) {
        lemma_factors_reach(w, n + used, first);
    }
}

/// Reading more terms looks no further back than where it starts.
proof fn lemma_terms_reach(w: Seq<Lexeme>, n: nat, left: Expression)
    ensures
        n <= reach(n, terms(w, n, left)),
    decreases remaining(w, n), 3nat,
{
    if word(w, n) == Lexeme::Plus {
        lemma_product_reach(w, n + 1);
        if let Ok((right, used)) = product(w, n + 1) {
            lemma_terms_reach(w, n + 1 + used, Expression::Sum(Box::new(left), Box::new(right)));
        }
    }
}

/// Reading a sum looks no further back than where it starts.
proof fn lemma_sum_reach(w: Seq<Lexeme>, n: nat)
    ensures
        n <= reach(n, sum(w, n)),
    decreases remaining(w, n), 4nat,
{
    lemma_product_reach(w, n);
    if let Ok((first, used)) = product(w, n) {
        lemma_terms_reach(w, n + used, first);
    }
}

/// An atom is read alike from tokens that are alike as far as the reading
/// looks.
proof fn lemma_atom_alike(w: Seq<Lexeme>, v: Seq<Lexeme>, m: nat, n: nat)
    requires
        covers(w, v, m, n, atom(w, n)),
    ensures
        atom(v, n) == atom(w, n),
    decreases remaining(w, n), 0nat,
{
    if word(w, n) == Lexeme::Open {
        lemma_sum_reach(w, n + 1);
        lemma_sum_alike(w, v, m, n + 1);
    }
}

/// More factors are read alike from tokens that are alike as far as the
/// reading looks.
proof fn lemma_factors_alike(w: Seq<Lexeme>, v: Seq<Lexeme>, m: nat, n: nat, left: Expression)
    requires
        covers(w, v, m, n, factors(w, n, left)),
    ensures
        factors(v, n, left) == factors(w, n, left),
    decreases remaining(w, n), 1nat,
{
    if word(w, n) == Lexeme::Star {
        lemma_atom_reach(w, n + 1);
        if let Ok((right, used)) = atom(w, n + 1) {
            let both = Expression::Product(Box::new(left), Box::new(right));
            lemma_factors_reach(w, n + 1 + used, both);
            lemma_atom_alike(w, v, m, n + 1);
            lemma_factors_alike(w, v, m, n + 1 + used, both);
        } else {
            lemma_atom_alike(w, v, m, n + 1);
        }
    }
}

/// A product is read alike from tokens that are alike as far as the reading
/// looks.
proof fn lemma_product_alike(w: Seq<Lexeme>, v: Seq<Lexeme>, m: nat, n: nat)
    requires
        covers(w, v, m, n, product(w, n)),
    ensures
        product(v, n) == product(w, n),
    decreases remaining(w, n), 2nat,
{
    if let Ok((first, used)) = atom(w, n) {
        lemma_factors_reach(w, n + used, first);
        lemma_atom_alike(w, v, m, n);
        lemma_factors_alike(w, v, m, n + used, first);
    } else {
        lemma_atom_alike(w, v, m, n);
    }
}

/// More terms are read alike from tokens that are alike as far as the reading
/// looks.
proof fn lemma_terms_alike(w: Seq<Lexeme>, v: Seq<Lexeme>, m: nat, n: nat, left: Expression)
    requires
        covers(w, v, m, n, terms(w, n, left)),
    ensures
        terms(v, n, left) == terms(w, n, left),
    decreases remaining(w, n), 3nat,
{
    if word(w, n) == Lexeme::Plus {
        lemma_product_reach(w, n + 1);
        if let Ok((right, used)) = product(w, n + 1) {
            let both = Expression::Sum(Box::new(left), Box::new(right));
            lemma_terms_reach(w, n + 1 + used, both);
            lemma_product_alike(w, v, m, n + 1);
            lemma_terms_alike(w, v, m, n + 1 + used, both);
        } else {
            lemma_product_alike(w, v, m, n + 1);
        }
    }
}

/// A sum is read alike from tokens that are alike as far as the reading
/// looks.
proof fn lemma_sum_alike(w: Seq<Lexeme>, v: Seq<Lexeme>, m: nat, n: nat)
    requires
        covers(w, v, m, n, sum(w, n)),
    ensures
        sum(v, n) == sum(w, n),
    decreases remaining(w, n), 4nat,
{
    if let Ok((first, used)) = product(w, n) {
        lemma_terms_reach(w, n + used, first);
        lemma_product_alike(w, v, m, n);
        lemma_terms_alike(w, v, m, n + used, first);
    } else {
        lemma_product_alike(w, v, m, n);
    }
}

/// The token that cannot stand where it does cannot do so whatever follows:
/// tokens that are alike up to and including that token are refused at that
/// token too, so no sentence of the grammar starts with them.
pub proof fn theorem_error_is_final(w: Seq<Lexeme>, v: Seq<Lexeme>, n: nat, tree: Expression)
    requires
        sentence(w) == Err::<Expression, nat>(n),
        alike_before(w, v, n + 1),
    ensures
        sentence(v) == Err::<Expression, nat>(n),
        !is_sentence(v, tree),
{
    lemma_sum_reach(w, 0);
    lemma_sum_alike(w, v, n + 1, 0);
    assert(v[n as int] == w[n as int]);
    theorem_reader_follows_grammar(v, tree);
}

/// The tokens of `w` in front of position `at`, and behind them the tokens
/// `more`.
spec fn mended(w: Seq<Lexeme>, at: nat, more: Seq<Lexeme>) -> Seq<Lexeme> {
    w.subrange(0, at as int) + more
}

/// Whether the reading `r`, made at position `n`, finds a phrase that ends
/// with the tokens `v`.
spec fn reads_all(v: Seq<Lexeme>, n: nat, r: Reading) -> bool {
    r matches Ok((_, used)) && n + used == v.len()
}

/// Mended tokens are like the tokens in front of the mending.
proof fn lemma_mended_alike(w: Seq<Lexeme>, at: nat, more: Seq<Lexeme>)
    requires
        at <= w.len(),
    ensures
        alike_before(w, mended(w, at, more), at),
{
}

/// Where no atom is read, other tokens in place of the one that cannot
/// stand where it does, and of what follows it, make an atom.
proof fn lemma_atom_mends(w: Seq<Lexeme>, n: nat) -> (more: Seq<Lexeme>)
    requires
        n <= w.len(),
        atom(w, n) is Err,
    ensures
        n <= atom(w, n)->Err_0 <= w.len(),
        reads_all(
            mended(w, atom(w, n)->Err_0, more),
            n,
            atom(mended(w, atom(w, n)->Err_0, more), n),
        ),
    decreases remaining(w, n), 0nat,
{
    let at = atom(w, n)->Err_0;
    match word(w, n) {
        Lexeme::Variable => {
            let more = seq![Lexeme::Number(DecimalValue::integer(0))];
            let v = mended(w, at, more);
            assert(v[n as int] == w[n as int]);
            assert(v[n + 1 as int] == w[n + 1 as int]);
            more
        },
        Lexeme::Open => {
            match sum(w, n + 1) {
                Ok((tree, used)) => {
                    lemma_sum_sound(w, n + 1);
                    let more = seq![Lexeme::Close];
                    let v = mended(w, at, more);
                    assert(v[n as int] == w[n as int]);
                    lemma_sum_alike(w, v, at, n + 1);
                    more
                },
                Err(_) => {
                    let inner = lemma_sum_mends(w, n + 1);
                    let v1 = mended(w, at, inner);
                    let more = inner.push(Lexeme::Close);
                    let v = mended(w, at, more);
                    assert(v =~= v1.push(Lexeme::Close));
                    assert(v[n as int] == w[n as int]);
                    lemma_sum_alike(v1, v, v1.len(), n + 1);
                    more
                },
            }
        },
        _ => {
            let more = seq![Lexeme::Variable];
            more
        },
    }
}

/// Where no more factors are read, other tokens in place of the one that
/// cannot stand where it does, and of what follows it, make more factors.
proof fn lemma_factors_mends(w: Seq<Lexeme>, n: nat, left: Expression) -> (more: Seq<Lexeme>)
    requires
        n <= w.len(),
        factors(w, n, left) is Err,
    ensures
        n < factors(w, n, left)->Err_0 <= w.len(),
        reads_all(
            mended(w, factors(w, n, left)->Err_0, more),
            n,
            factors(mended(w, factors(w, n, left)->Err_0, more), n, left),
        ),
    decreases remaining(w, n), 1nat,
{
    let at = factors(w, n, left)->Err_0;
    match atom(w, n + 1) {
        Ok((right, used)) => {
            let both = Expression::Product(Box::new(left), Box::new(right));
            lemma_atom_sound(w, n + 1);
            let more = lemma_factors_mends(w, n + 1 + used, both);
            let v = mended(w, at, more);
            lemma_mended_alike(w, at, more);
            assert(v[n as int] == w[n as int]);
            lemma_atom_alike(w, v, at, n + 1);
            more
        },
        Err(_) => {
            let more = lemma_atom_mends(w, n + 1);
            let v = mended(w, at, more);
            assert(v[n as int] == w[n as int]);
            let (right, used) = atom(v, n + 1)->Ok_0;
            let both = Expression::Product(Box::new(left), Box::new(right));
            assert(factors(v, n + 1 + used, both) == Ok::<(Expression, nat), nat>((both, 0)));
            more
        },
    }
}

/// Where no product is read, other tokens in place of the one that cannot
/// stand where it does, and of what follows it, make a product.
proof fn lemma_product_mends(w: Seq<Lexeme>, n: nat) -> (more: Seq<Lexeme>)
    requires
        n <= w.len(),
        product(w, n) is Err,
    ensures
        n <= product(w, n)->Err_0 <= w.len(),
        reads_all(
            mended(w, product(w, n)->Err_0, more),
            n,
            product(mended(w, product(w, n)->Err_0, more), n),
        ),
    decreases remaining(w, n), 2nat,
{
    let at = product(w, n)->Err_0;
    match atom(w, n) {
        Ok((first, used)) => {
            lemma_atom_sound(w, n);
            let more = lemma_factors_mends(w, n + used, first);
            let v = mended(w, at, more);
            lemma_mended_alike(w, at, more);
            lemma_atom_alike(w, v, at, n);
            more
        },
        Err(_) => {
            let more = lemma_atom_mends(w, n);
            more
        },
    }
}

/// Where no more terms are read, other tokens in place of the one that
/// cannot stand where it does, and of what follows it, make more terms.
proof fn lemma_terms_mends(w: Seq<Lexeme>, n: nat, left: Expression) -> (more: Seq<Lexeme>)
    requires
        n <= w.len(),
        terms(w, n, left) is Err,
    ensures
        n < terms(w, n, left)->Err_0 <= w.len(),
        reads_all(
            mended(w, terms(w, n, left)->Err_0, more),
            n,
            terms(mended(w, terms(w, n, left)->Err_0, more), n, left),
        ),
    decreases remaining(w, n), 3nat,
{
    let at = terms(w, n, left)->Err_0;
    match product(w, n + 1) {
        Ok((right, used)) => {
            let both = Expression::Sum(Box::new(left), Box::new(right));
            lemma_product_sound(w, n + 1);
            let more = lemma_terms_mends(w, n + 1 + used, both);
            let v = mended(w, at, more);
            lemma_mended_alike(w, at, more);
            assert(v[n as int] == w[n as int]);
            lemma_product_alike(w, v, at, n + 1);
            more
        },
        Err(_) => {
            let more = lemma_product_mends(w, n + 1);
            let v = mended(w, at, more);
            assert(v[n as int] == w[n as int]);
            let (right, used) = product(v, n + 1)->Ok_0;
            let both = Expression::Sum(Box::new(left), Box::new(right));
            assert(terms(v, n + 1 + used, both) == Ok::<(Expression, nat), nat>((both, 0)));
            more
        },
    }
}

/// Where no sum is read, other tokens in place of the one that cannot stand
/// where it does, and of what follows it, make a sum.
proof fn lemma_sum_mends(w: Seq<Lexeme>, n: nat) -> (more: Seq<Lexeme>)
    requires
        n <= w.len(),
        sum(w, n) is Err,
    ensures
        n <= sum(w, n)->Err_0 <= w.len(),
        reads_all(
            mended(w, sum(w, n)->Err_0, more),
            n,
            sum(mended(w, sum(w, n)->Err_0, more), n),
        ),
    decreases remaining(w, n), 4nat,
{
    let at = sum(w, n)->Err_0;
    match product(w, n) {
        Ok((first, used)) => {
            lemma_product_sound(w, n);
            let more = lemma_terms_mends(w, n + used, first);
            let v = mended(w, at, more);
            lemma_mended_alike(w, at, more);
            lemma_product_alike(w, v, at, n);
            more
        },
        Err(_) => {
            let more = lemma_product_mends(w, n);
            more
        },
    }
}

/// The token that cannot stand where it does is the first such: the tokens
/// in front of it start a sentence. The tokens `v` are one.
pub proof fn theorem_error_is_first(w: Seq<Lexeme>, n: nat) -> (v: Seq<Lexeme>)
    requires
        sentence(w) == Err::<Expression, nat>(n),
    ensures
        alike_before(w, v, n),
        sentence(v) is Ok,
{
    match sum(w, 0) {
        Ok((tree, used)) => {
            lemma_sum_sound(w, 0);
            let v = mended(w, n, seq![Lexeme::End]);
            lemma_sum_alike(w, v, n, 0);
            v
        },
        Err(_) => {
            let more = lemma_sum_mends(w, 0);
            let v1 = mended(w, n, more);
            let v = v1.push(Lexeme::End);
            lemma_sum_alike(v1, v, v1.len(), 0);
            v
        },
    }
}

} // verus!
