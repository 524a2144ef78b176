use symdiff::decimal::Decimal;

fn lit(text: &str) -> Decimal {
    Decimal::from_literal(text).unwrap()
}

#[test]
fn literals_of_one_value_are_equal() {
    assert_eq!(lit("2.5"), lit("2.50"));
    assert_eq!(lit("2.5"), lit("02.5"));
    assert_eq!(lit("0"), lit("0.0"));
    assert_eq!(lit("0"), lit("000"));
    assert_eq!(lit("10"), Decimal::from_i64(10));
    assert_eq!(lit("0"), Decimal::from_i64(0));
    assert_eq!(lit("9223372036854775807"), Decimal::from_i64(i64::MAX));
}

#[test]
fn literals_of_different_values_differ() {
    assert_ne!(lit("2.5"), lit("2.05"));
    assert_ne!(lit("25"), lit("2.5"));
    assert_ne!(lit("1"), lit("10"));
    assert_ne!(lit("0.1"), lit("0.01"));
    assert_ne!(Decimal::from_i64(1), Decimal::from_i64(-1));
}

#[test]
fn not_a_literal() {
    assert_eq!(Decimal::from_literal(""), None);
    assert_eq!(Decimal::from_literal("."), None);
    assert_eq!(Decimal::from_literal(".5"), None);
    assert_eq!(Decimal::from_literal("5."), None);
    assert_eq!(Decimal::from_literal("-5"), None);
    assert_eq!(Decimal::from_literal("+5"), None);
    assert_eq!(Decimal::from_literal(" 5"), None);
    assert_eq!(Decimal::from_literal("5 "), None);
    assert_eq!(Decimal::from_literal("1.2.3"), None);
    assert_eq!(Decimal::from_literal("1e5"), None);
    assert_eq!(Decimal::from_literal("x"), None);
    assert_eq!(Decimal::from_literal("٣"), None);
}

#[test]
fn one_less_than_a_whole_number() {
    assert_eq!(Decimal::from_i64(2).minus_one(), Decimal::from_i64(1));
    assert_eq!(Decimal::from_i64(1).minus_one(), Decimal::from_i64(0));
    assert_eq!(Decimal::from_i64(0).minus_one(), Decimal::from_i64(-1));
    assert_eq!(Decimal::from_i64(-1).minus_one(), Decimal::from_i64(-2));
    assert_eq!(Decimal::from_i64(10).minus_one(), Decimal::from_i64(9));
    assert_eq!(Decimal::from_i64(100).minus_one(), Decimal::from_i64(99));
    assert_eq!(Decimal::from_i64(1000).minus_one(), Decimal::from_i64(999));
    assert_eq!(Decimal::from_i64(-9).minus_one(), Decimal::from_i64(-10));
    assert_eq!(Decimal::from_i64(-99).minus_one(), Decimal::from_i64(-100));
    assert_eq!(Decimal::from_i64(-109).minus_one(), Decimal::from_i64(-110));
    assert_eq!(Decimal::from_i64(120).minus_one(), Decimal::from_i64(119));
}

#[test]
fn one_less_than_a_fraction() {
    assert_eq!(lit("2.5").minus_one(), lit("1.5"));
    assert_eq!(lit("1.5").minus_one(), lit("0.5"));
    assert_eq!(lit("1.25").minus_one().minus_one(), lit("0.25").minus_one());
    assert_ne!(lit("0.5").minus_one(), lit("0.5"));
    assert_ne!(lit("0.5").minus_one(), Decimal::from_i64(0));
    assert_ne!(lit("0.5").minus_one(), Decimal::from_i64(-1));
    assert_eq!(lit("10.01").minus_one(), lit("9.01"));
}

#[test]
fn below_the_least_i64() {
    let least = Decimal::from_i64(i64::MIN);
    let below = least.minus_one();
    assert_ne!(below, least);
    assert_ne!(below, Decimal::from_i64(i64::MAX));
    assert_eq!(below, Decimal::from_i64(i64::MIN + 1).minus_one().minus_one());
}

#[test]
fn more_digits_than_any_machine_number() {
    let big = lit("100000000000000000000000000000000000000000000000000");
    let less = lit("99999999999999999999999999999999999999999999999999");
    assert_eq!(big.minus_one(), less);
    assert_ne!(big, less);
    let fine = lit("0.00000000000000000000000000000000000000000000000001");
    assert_ne!(fine, lit("0"));
    assert_eq!(fine.clone(), fine);
}

#[test]
fn clone_is_equal() {
    let n = lit("12.75").minus_one();
    assert_eq!(n.clone(), n);
    let m = Decimal::from_i64(-3);
    assert_eq!(m.clone(), m);
}

fn parts(n: &Decimal) -> (bool, Vec<u8>, Vec<u8>) {
    (n.is_negative(), n.whole_digits(), n.fraction_digits())
}

#[test]
fn digits_of_a_number() {
    assert_eq!(parts(&lit("12.5")), (false, vec![1, 2], vec![5]));
    assert_eq!(parts(&lit("0012.500")), (false, vec![1, 2], vec![5]));
    assert_eq!(parts(&lit("0.05")), (false, vec![], vec![0, 5]));
    assert_eq!(parts(&lit("0")), (false, vec![], vec![]));
    assert_eq!(parts(&lit("100")), (false, vec![1, 0, 0], vec![]));
    assert_eq!(parts(&Decimal::from_i64(-42)), (true, vec![4, 2], vec![]));
    assert_eq!(
        parts(&Decimal::from_i64(i64::MIN)),
        (
            true,
            vec![9, 2, 2, 3, 3, 7, 2, 0, 3, 6, 8, 5, 4, 7, 7, 5, 8, 0, 8],
            vec![]
        )
    );
    assert_eq!(
        parts(&Decimal::from_i64(i64::MAX)),
        (
            false,
            vec![9, 2, 2, 3, 3, 7, 2, 0, 3, 6, 8, 5, 4, 7, 7, 5, 8, 0, 7],
            vec![]
        )
    );
}

#[test]
fn digits_of_one_less() {
    assert_eq!(parts(&lit("2.5").minus_one()), (false, vec![1], vec![5]));
    assert_eq!(parts(&lit("1.5").minus_one()), (false, vec![], vec![5]));
    assert_eq!(parts(&lit("0.5").minus_one()), (true, vec![], vec![5]));
    assert_eq!(parts(&lit("0.25").minus_one()), (true, vec![], vec![7, 5]));
    assert_eq!(parts(&lit("0.05").minus_one()), (true, vec![], vec![9, 5]));
    assert_eq!(parts(&lit("0.001").minus_one()), (true, vec![], vec![9, 9, 9]));
    assert_eq!(parts(&lit("0.999").minus_one()), (true, vec![], vec![0, 0, 1]));
    assert_eq!(
        parts(&lit("0.25").minus_one().minus_one()),
        (true, vec![1], vec![7, 5])
    );
    assert_eq!(parts(&lit("1").minus_one()), (false, vec![], vec![]));
    assert_eq!(parts(&lit("0").minus_one()), (true, vec![1], vec![]));
    assert_eq!(parts(&lit("10").minus_one()), (false, vec![9], vec![]));
    assert_eq!(parts(&lit("1000").minus_one()), (false, vec![9, 9, 9], vec![]));
    assert_eq!(
        parts(&Decimal::from_i64(-999).minus_one()),
        (true, vec![1, 0, 0, 0], vec![])
    );
    assert_eq!(
        parts(&Decimal::from_i64(-1299).minus_one()),
        (true, vec![1, 3, 0, 0], vec![])
    );
    assert_eq!(parts(&lit("10.01").minus_one()), (false, vec![9], vec![0, 1]));
}

#[test]
fn number_from_its_digits() {
    assert_eq!(
        Decimal::from_digits(false, vec![1, 2], vec![5]),
        Some(lit("12.5"))
    );
    assert_eq!(
        Decimal::from_digits(false, vec![0, 1, 2], vec![5, 0]),
        Some(lit("12.5"))
    );
    assert_eq!(
        Decimal::from_digits(true, vec![], vec![7, 5]),
        Some(lit("0.25").minus_one())
    );
    assert_eq!(
        Decimal::from_digits(true, vec![3], vec![]),
        Some(Decimal::from_i64(-3))
    );
    assert_eq!(
        Decimal::from_digits(false, vec![], vec![]),
        Some(Decimal::from_i64(0))
    );
    assert_eq!(
        Decimal::from_digits(true, vec![0, 0], vec![0]),
        Some(Decimal::from_i64(0))
    );
    assert_eq!(
        parts(&Decimal::from_digits(true, vec![0], vec![0]).unwrap()),
        (false, vec![], vec![])
    );
}

#[test]
fn not_digits() {
    assert_eq!(Decimal::from_digits(false, vec![10], vec![]), None);
    assert_eq!(Decimal::from_digits(false, vec![1], vec![2, 255]), None);
    assert_eq!(Decimal::from_digits(true, vec![b'1'], vec![]), None);
}

#[test]
fn zero_or_not() {
    assert!(lit("0").is_zero());
    assert!(lit("0.000").is_zero());
    assert!(Decimal::from_i64(1).minus_one().is_zero());
    assert!(!lit("0.001").is_zero());
    assert!(!Decimal::from_i64(-1).is_zero());
    assert!(!lit("0").is_negative());
    assert!(!lit("0.1").is_negative());
    assert!(lit("0.1").minus_one().is_negative());
}
