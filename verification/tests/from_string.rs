use std::rc::Rc;
use std::str::FromStr;
use symdiff::decimal::Decimal;
use symdiff::{Cst, Error, Ope};

fn num(v: f64) -> Decimal {
    if v.fract() == 0.0 {
        Decimal::from_i64(v as i64)
    } else {
        Decimal::from_literal(&format!("{}", v)).unwrap()
    }
}

fn number(v: f64) -> Rc<Ope> {
    Rc::new(Ope::Cst(Cst::Num(num(v))))
}

fn power(v: f64) -> Rc<Ope> {
    Rc::new(Ope::Pow(num(v)))
}

fn named(c: char) -> Rc<Ope> {
    Rc::new(Ope::Cst(Cst::Sem(c)))
}

fn rejected(text: &str, rest: &str) {
    assert_eq!(
        Ope::from_str(text),
        Err(Error::ParseErr(String::from(rest)))
    );
}

#[test]
fn simple() {
    assert_eq!(
        Ope::from_str("x + 1"),
        Ok(Ope::Add(
            Rc::new(Ope::Pow(num(1.0))),
            Rc::new(Ope::Cst(Cst::Num(num(1.0))))
        ))
    );
}

#[test]
fn squared() {
    assert_eq!(
        Ope::from_str("x^2 + 1"),
        Ok(Ope::Add(
            Rc::new(Ope::Pow(num(2.0))),
            Rc::new(Ope::Cst(Cst::Num(num(1.0))))
        ))
    );
}

#[test]
fn one_parenthesis() {
    assert_eq!(
        Ope::from_str("(x + 1) + a").unwrap(),
        Ope::Add(
            Rc::new(Ope::Add(
                Rc::new(Ope::Pow(num(1.0))),
                Rc::new(Ope::Cst(Cst::Num(num(1.0))))
            )),
            Rc::new(Ope::Cst(Cst::Sem('a')))
        )
    );
}

#[test]
fn through_the_trait() {
    let parsed: Result<Ope, Error> = "x + 1".parse();
    assert_eq!(parsed, Ok(Ope::Add(power(1.0), number(1.0))));
    assert_eq!(
        <Ope as FromStr>::from_str("x +"),
        Err(Error::ParseErr(String::new()))
    );
}

#[test]
fn empty_text() {
    rejected("", "");
    rejected("   ", "");
}

#[test]
fn unbalanced_parenthesis() {
    rejected("(x + 1", "");
    rejected("x + 1)", ")");
    rejected("((x)", "");
    rejected("()", ")");
}

#[test]
fn double_operator() {
    rejected("x + + 1", "+ 1");
    rejected("x * * 2", "* 2");
    rejected("+ x", "+ x");
    rejected("x +", "");
}

#[test]
fn trailing_text() {
    rejected("x 1", "1");
    rejected("2x", "x");
    rejected("x x", "x");
    rejected("ab", "b");
    rejected("x + 1 )", ")");
}

#[test]
fn characters_that_start_no_token() {
    rejected("x - 1", "- 1");
    rejected("x + $", "$");
    rejected("x + é", "é");
    rejected("é + x", "é + x");
    rejected(".5", ".5");
    rejected("1.", ".");
    rejected("1.5.2", ".2");
}

#[test]
fn exponent_only_on_the_variable() {
    rejected("2^3", "^3");
    rejected("a^2", "^2");
    rejected("(x)^2", "^2");
    rejected("x^2^3", "^3");
    rejected("x^", "");
    rejected("x^a", "a");
    rejected("x^-1", "-1");
    rejected("x^(2)", "(2)");
}

#[test]
fn first_error_wins() {
    rejected("x + + $", "+ $");
    rejected("x $ + + 1", "$ + + 1");
}

#[test]
fn atoms() {
    assert_eq!(Ope::from_str("x"), Ok(Ope::Pow(num(1.0))));
    assert_eq!(Ope::from_str("7"), Ok(Ope::Cst(Cst::Num(num(7.0)))));
    assert_eq!(Ope::from_str("a"), Ok(Ope::Cst(Cst::Sem('a'))));
    assert_eq!(Ope::from_str("Z"), Ok(Ope::Cst(Cst::Sem('Z'))));
    assert_eq!(Ope::from_str("X"), Ok(Ope::Cst(Cst::Sem('X'))));
    assert_eq!(Ope::from_str("(x)"), Ok(Ope::Pow(num(1.0))));
    assert_eq!(Ope::from_str("((x))"), Ok(Ope::Pow(num(1.0))));
}

#[test]
fn numbers() {
    assert_eq!(Ope::from_str("0"), Ok(Ope::Cst(Cst::Num(num(0.0)))));
    assert_eq!(Ope::from_str("0.5"), Ok(Ope::Cst(Cst::Num(num(0.5)))));
    assert_eq!(Ope::from_str("12.25"), Ok(Ope::Cst(Cst::Num(num(12.25)))));
    assert_eq!(Ope::from_str("007"), Ok(Ope::Cst(Cst::Num(num(7.0)))));
    assert_eq!(Ope::from_str("2.50"), Ok(Ope::Cst(Cst::Num(num(2.5)))));
    assert_eq!(Ope::from_str("3.000"), Ok(Ope::Cst(Cst::Num(num(3.0)))));
    assert_eq!(Ope::from_str("x^0.5"), Ok(Ope::Pow(num(0.5))));
    assert_eq!(Ope::from_str("x^1"), Ok(Ope::Pow(num(1.0))));
    assert_eq!(Ope::from_str("x^0"), Ok(Ope::Pow(num(0.0))));
}

#[test]
fn white_space() {
    let expected = Ok(Ope::Add(power(2.0), number(1.0)));
    assert_eq!(Ope::from_str("x^2+1"), expected);
    assert_eq!(Ope::from_str("  x ^ 2 + 1  "), expected);
    assert_eq!(Ope::from_str("\tx\n^\r2 +\x0C1"), expected);
    assert_eq!(Ope::from_str("( x^2 ) + ( 1 )"), expected);
    rejected("1 2", "2");
    rejected("1 .5", ".5");
}

#[test]
fn sums_group_to_the_left() {
    assert_eq!(
        Ope::from_str("a + b + c"),
        Ok(Ope::Add(
            Rc::new(Ope::Add(named('a'), named('b'))),
            named('c')
        ))
    );
    assert_eq!(
        Ope::from_str("a + (b + c)"),
        Ok(Ope::Add(
            named('a'),
            Rc::new(Ope::Add(named('b'), named('c')))
        ))
    );
}

#[test]
fn products_group_to_the_left() {
    assert_eq!(
        Ope::from_str("a * b * c"),
        Ok(Ope::Mul(
            Rc::new(Ope::Mul(named('a'), named('b'))),
            named('c')
        ))
    );
}

#[test]
fn products_bind_tighter_than_sums() {
    assert_eq!(
        Ope::from_str("a + b * c"),
        Ok(Ope::Add(
            named('a'),
            Rc::new(Ope::Mul(named('b'), named('c')))
        ))
    );
    assert_eq!(
        Ope::from_str("a * b + c"),
        Ok(Ope::Add(
            Rc::new(Ope::Mul(named('a'), named('b'))),
            named('c')
        ))
    );
    assert_eq!(
        Ope::from_str("(a + b) * c"),
        Ok(Ope::Mul(
            Rc::new(Ope::Add(named('a'), named('b'))),
            named('c')
        ))
    );
    assert_eq!(
        Ope::from_str("2 * x^3 + 4 * x"),
        Ok(Ope::Add(
            Rc::new(Ope::Mul(number(2.0), power(3.0))),
            Rc::new(Ope::Mul(number(4.0), power(1.0)))
        ))
    );
}

#[test]
fn deep_nesting() {
    let mut text = String::new();
    for _ in 0..200 {
        text.push('(');
    }
    text.push('x');
    for _ in 0..200 {
        text.push(')');
    }
    assert_eq!(Ope::from_str(&text), Ok(Ope::Pow(num(1.0))));
    text.pop();
    rejected(&text, "");
}

#[test]
fn same_text_same_result() {
    assert_eq!(Ope::from_str("x * (a + 2)"), Ope::from_str("x * (a + 2)"));
    assert_eq!(Ope::from_str("x * (a + "), Ope::from_str("x * (a + "));
}

#[test]
fn parse_then_differentiate() {
    let tree = Ope::from_str("x^2 + 1").unwrap();
    assert_eq!(
        tree.grad(),
        Ope::Add(
            Rc::new(Ope::Mul(number(2.0), power(1.0))),
            number(0.0)
        )
    );
}

#[test]
fn error_message() {
    let error = Ope::from_str("x +").unwrap_err();
    assert_eq!(error.message(), "Cannot parse expression");
}

fn refused_at(text: &str) -> Option<usize> {
    match Ope::from_str(text) {
        Ok(_) => None,
        Err(Error::ParseErr(rest)) => {
            assert!(text.ends_with(&rest));
            Some(text.chars().count() - rest.chars().count())
        }
    }
}

#[test]
fn what_follows_the_error_does_not_matter() {
    let refused = ["x + + 1", "x 1", "2x", "(x + 1))", "x ^ a", "* x", "x + $", "(x * ) + 1"];
    let tails = [" x", " + 1", " )", " (", " 12.5", " $", ""];
    for text in refused {
        let at = refused_at(text).unwrap();
        assert!(at < text.chars().count());
        for tail in tails {
            let longer = format!("{}{}", text, tail);
            assert_eq!(refused_at(&longer), Some(at), "{:?}", longer);
        }
    }
}

#[test]
fn what_stands_before_the_error_starts_an_expression() {
    let refused = [
        "", "x + + 1", "x 1", "2x", "(x + 1))", "x ^ a", "* x", "x + $", "(x * ) + 1",
        "((x + 1", "(x * (a + ", "x ^", "( ( (",
    ];
    let endings = ["", "x", "2", ")", "x)", "))", "x))", ")))", "x)))"];
    for text in refused {
        let at = refused_at(text).unwrap();
        let before: String = text.chars().take(at).collect();
        let mended = endings
            .iter()
            .any(|ending| Ope::from_str(&format!("{} {}", before, ending)).is_ok());
        assert!(mended, "{:?}", before);
    }
}
