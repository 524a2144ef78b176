use std::rc::Rc;
use symdiff::decimal::Decimal;
use symdiff::{Cst, Ope};

fn num(v: f64) -> Decimal {
    if v.fract() == 0.0 {
        Decimal::from_i64(v as i64)
    } else {
        Decimal::from_literal(&format!("{}", v)).unwrap()
    }
}

fn constant_sum(a: f64, b: f64) -> Ope {
    Ope::Add(
        Rc::new(Ope::Cst(Cst::Num(num(a)))),
        Rc::new(Ope::Cst(Cst::Num(num(b)))),
    )
}

#[test]
fn constant() {
    assert_eq!(
        Ope::Cst(Cst::Num(num(32.0))).grad(),
        Ope::Cst(Cst::Num(num(0.0)))
    );
}

#[test]
fn add_simple() {
    let add = constant_sum(2.0, 3.0);
    assert_eq!(add.grad(), constant_sum(0.0, 0.0));
}

#[test]
fn symbolic_constant() {
    assert_eq!(
        Ope::Cst(Cst::Sem('a')).grad(),
        Ope::Cst(Cst::Num(num(0.0)))
    );
    assert_eq!(
        Ope::Cst(Cst::Sem('x')).grad(),
        Ope::Cst(Cst::Num(num(0.0)))
    );
}

#[test]
fn fractional_constant() {
    assert_eq!(
        Ope::Cst(Cst::Num(num(0.125))).grad(),
        Ope::Cst(Cst::Num(num(0.0)))
    );
}

#[test]
fn power_of_two() {
    assert_eq!(
        Ope::Pow(num(2.0)).grad(),
        Ope::Mul(
            Rc::new(Ope::Cst(Cst::Num(num(2.0)))),
            Rc::new(Ope::Pow(num(1.0)))
        )
    );
}

#[test]
fn power_of_one_is_not_simplified() {
    assert_eq!(
        Ope::Pow(num(1.0)).grad(),
        Ope::Mul(
            Rc::new(Ope::Cst(Cst::Num(num(1.0)))),
            Rc::new(Ope::Pow(num(0.0)))
        )
    );
}

#[test]
fn power_of_zero_goes_below_zero() {
    assert_eq!(
        Ope::Pow(num(0.0)).grad(),
        Ope::Mul(
            Rc::new(Ope::Cst(Cst::Num(num(0.0)))),
            Rc::new(Ope::Pow(num(-1.0)))
        )
    );
}

#[test]
fn fractional_power() {
    assert_eq!(
        Ope::Pow(num(2.5)).grad(),
        Ope::Mul(
            Rc::new(Ope::Cst(Cst::Num(num(2.5)))),
            Rc::new(Ope::Pow(num(1.5)))
        )
    );
}

#[test]
fn product_keeps_both_factors() {
    let f = Rc::new(Ope::Pow(num(3.0)));
    let g = Rc::new(Ope::Cst(Cst::Sem('a')));
    let df = Ope::Mul(
        Rc::new(Ope::Cst(Cst::Num(num(3.0)))),
        Rc::new(Ope::Pow(num(2.0))),
    );
    let dg = Ope::Cst(Cst::Num(num(0.0)));
    let expected = Ope::Add(
        Rc::new(Ope::Mul(Rc::new(df), g.clone())),
        Rc::new(Ope::Mul(f.clone(), Rc::new(dg))),
    );
    assert_eq!(Ope::Mul(f.clone(), g.clone()).grad(), expected);
}

#[test]
fn product_shares_the_factors() {
    let f = Rc::new(Ope::Pow(num(3.0)));
    let g = Rc::new(Ope::Cst(Cst::Sem('a')));
    let d = Ope::Mul(f.clone(), g.clone()).grad();
    match d {
        Ope::Add(left, right) => match (&*left, &*right) {
            (Ope::Mul(_, kept_g), Ope::Mul(kept_f, _)) => {
                assert!(Rc::ptr_eq(kept_g, &g));
                assert!(Rc::ptr_eq(kept_f, &f));
            }
            _ => panic!("not a sum of two products"),
        },
        _ => panic!("not a sum"),
    }
}

#[test]
fn sum_of_powers() {
    let e = Ope::Add(Rc::new(Ope::Pow(num(2.0))), Rc::new(Ope::Pow(num(1.0))));
    let expected = Ope::Add(
        Rc::new(Ope::Mul(
            Rc::new(Ope::Cst(Cst::Num(num(2.0)))),
            Rc::new(Ope::Pow(num(1.0))),
        )),
        Rc::new(Ope::Mul(
            Rc::new(Ope::Cst(Cst::Num(num(1.0)))),
            Rc::new(Ope::Pow(num(0.0))),
        )),
    );
    assert_eq!(e.grad(), expected);
}

#[test]
fn twice_the_same() {
    let e = Ope::Mul(
        Rc::new(Ope::Add(
            Rc::new(Ope::Pow(num(2.0))),
            Rc::new(Ope::Cst(Cst::Sem('b'))),
        )),
        Rc::new(Ope::Pow(num(0.5))),
    );
    let first = e.grad();
    let second = e.grad();
    assert_eq!(first, second);
    assert_eq!(
        e,
        Ope::Mul(
            Rc::new(Ope::Add(
                Rc::new(Ope::Pow(num(2.0))),
                Rc::new(Ope::Cst(Cst::Sem('b'))),
            )),
            Rc::new(Ope::Pow(num(0.5))),
        )
    );
}

#[test]
fn twenty_levels_deep() {
    let mut e = Ope::Pow(num(2.0));
    let mut expected = Ope::Mul(
        Rc::new(Ope::Cst(Cst::Num(num(2.0)))),
        Rc::new(Ope::Pow(num(1.0))),
    );
    for _ in 0..20 {
        e = Ope::Add(Rc::new(e), Rc::new(Ope::Cst(Cst::Num(num(1.0)))));
        expected = Ope::Add(Rc::new(expected), Rc::new(Ope::Cst(Cst::Num(num(0.0)))));
    }
    assert_eq!(e.grad(), expected);
}

#[test]
fn second_derivative_of_a_power() {
    let first = Ope::Pow(num(0.5)).grad();
    let second = first.grad();
    let half = || Rc::new(Ope::Cst(Cst::Num(num(0.5))));
    let minus_half = Decimal::from_literal("0.5").unwrap().minus_one();
    let minus_three_halves = minus_half.minus_one();
    let expected = Ope::Add(
        Rc::new(Ope::Mul(
            Rc::new(Ope::Cst(Cst::Num(num(0.0)))),
            Rc::new(Ope::Pow(minus_half.clone())),
        )),
        Rc::new(Ope::Mul(
            half(),
            Rc::new(Ope::Mul(
                Rc::new(Ope::Cst(Cst::Num(minus_half))),
                Rc::new(Ope::Pow(minus_three_halves)),
            )),
        )),
    );
    assert_eq!(second, expected);
}

#[test]
fn same_expression() {
    let a = Ope::Add(Rc::new(Ope::Pow(num(2.0))), Rc::new(Ope::Cst(Cst::Sem('a'))));
    let b = Ope::Add(Rc::new(Ope::Pow(num(2.0))), Rc::new(Ope::Cst(Cst::Sem('a'))));
    let c = Ope::Add(Rc::new(Ope::Cst(Cst::Sem('a'))), Rc::new(Ope::Pow(num(2.0))));
    let d = Ope::Mul(Rc::new(Ope::Pow(num(2.0))), Rc::new(Ope::Cst(Cst::Sem('a'))));
    assert!(a.same_as(&b));
    assert!(a == b);
    assert!(!a.same_as(&c));
    assert!(a != c);
    assert!(!a.same_as(&d));
    assert!(Ope::Pow(num(2.0)) != Ope::Cst(Cst::Num(num(2.0))));
    assert!(Ope::Pow(num(2.0)) != Ope::Pow(num(2.5)));
    assert!(Cst::Sem('a') != Cst::Sem('b'));
    assert!(Cst::Sem('a') != Cst::Num(num(1.0)));
    assert!(Cst::Num(num(1.0)) == Cst::Num(num(1.0)));
}
