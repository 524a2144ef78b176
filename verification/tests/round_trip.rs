use std::rc::Rc;
use symdiff::decimal::Decimal;
use symdiff::{Cst, Ope};

struct Dice(u64);

impl Dice {
    fn roll(&mut self, sides: u64) -> u64 {
        self.0 = self
            .0
            .wrapping_mul(6364136223846793005)
            .wrapping_add(1442695040888963407);
        (self.0 >> 33) % sides
    }
}

fn some_number(dice: &mut Dice) -> Decimal {
    let mut whole = Vec::new();
    for _ in 0..dice.roll(4) {
        whole.push(dice.roll(10) as u8);
    }
    let mut frac = Vec::new();
    for _ in 0..dice.roll(3) {
        frac.push(dice.roll(10) as u8);
    }
    Decimal::from_digits(false, whole, frac).unwrap()
}

fn some_tree(dice: &mut Dice, depth: u32) -> Ope {
    let kind = if depth == 0 { dice.roll(3) } else { dice.roll(5) };
    match kind {
        0 => Ope::Pow(some_number(dice)),
        1 => Ope::Cst(Cst::Num(some_number(dice))),
        2 => {
            let names = ['a', 'b', 'k', 'y', 'Q', 'X'];
            Ope::Cst(Cst::Sem(names[dice.roll(6) as usize]))
        }
        3 => Ope::Add(
            Rc::new(some_tree(dice, depth - 1)),
            Rc::new(some_tree(dice, depth - 1)),
        ),
        _ => Ope::Mul(
            Rc::new(some_tree(dice, depth - 1)),
            Rc::new(some_tree(dice, depth - 1)),
        ),
    }
}

fn gap(dice: &mut Dice, text: &mut String) {
    let blanks = [' ', '\t', '\n', '\r', '\x0C'];
    for _ in 0..dice.roll(3) {
        text.push(blanks[dice.roll(5) as usize]);
    }
}

fn write_number(n: &Decimal, text: &mut String) {
    let whole = n.whole_digits();
    if whole.is_empty() {
        text.push('0');
    }
    for digit in whole {
        text.push(char::from(b'0' + digit));
    }
    let frac = n.fraction_digits();
    if !frac.is_empty() {
        text.push('.');
    }
    for digit in frac {
        text.push(char::from(b'0' + digit));
    }
}

fn write_atom(tree: &Ope, dice: &mut Dice, text: &mut String) {
    gap(dice, text);
    match tree {
        Ope::Pow(n) => {
            text.push('x');
            if *n != Decimal::from_i64(1) || dice.roll(2) == 0 {
                gap(dice, text);
                text.push('^');
                gap(dice, text);
                write_number(n, text);
            }
        }
        Ope::Cst(Cst::Num(n)) => write_number(n, text),
        Ope::Cst(Cst::Sem(c)) => text.push(*c),
        _ => {
            text.push('(');
            write_sum(tree, dice, text);
            gap(dice, text);
            text.push(')');
        }
    }
}

fn write_product(tree: &Ope, dice: &mut Dice, text: &mut String) {
    match tree {
        Ope::Mul(left, right) => {
            write_product(left, dice, text);
            gap(dice, text);
            text.push('*');
            write_atom(right, dice, text);
        }
        _ => write_atom(tree, dice, text),
    }
}

fn write_sum(tree: &Ope, dice: &mut Dice, text: &mut String) {
    match tree {
        Ope::Add(left, right) => {
            write_sum(left, dice, text);
            gap(dice, text);
            text.push('+');
            write_product(right, dice, text);
        }
        _ => write_product(tree, dice, text),
    }
}

#[test]
fn what_is_written_is_read_back() {
    let mut dice = Dice(2024);
    for round in 0..500 {
        let tree = some_tree(&mut dice, round % 6);
        let mut text = String::new();
        write_sum(&tree, &mut dice, &mut text);
        gap(&mut dice, &mut text);
        assert_eq!(Ope::from_str(&text), Ok(tree), "read from {:?}", text);
    }
}

#[test]
fn the_error_holds_the_end_of_the_text() {
    let mut dice = Dice(7);
    let mut rejected = 0;
    for round in 0..300 {
        let tree = some_tree(&mut dice, 1 + round % 4);
        let mut text = String::new();
        write_sum(&tree, &mut dice, &mut text);
        let chars: Vec<char> = text.chars().collect();
        let cut: String = chars[..chars.len() / 2].iter().collect();
        if let Err(symdiff::Error::ParseErr(rest)) = Ope::from_str(&cut) {
            assert!(cut.ends_with(&rest), "{:?} in {:?}", rest, cut);
            rejected += 1;
        }
        let spoiled = format!("{} # {}", cut, text);
        match Ope::from_str(&spoiled) {
            Err(symdiff::Error::ParseErr(rest)) => {
                assert!(spoiled.ends_with(&rest), "{:?} in {:?}", rest, spoiled);
                assert!(rest.contains('#'), "{:?} in {:?}", rest, spoiled);
            }
            Ok(_) => panic!("read {:?}", spoiled),
        }
    }
    assert!(rejected > 100);
}

#[test]
fn derivative_of_what_is_read() {
    let mut dice = Dice(99);
    for round in 0..200 {
        let tree = some_tree(&mut dice, round % 5);
        let mut text = String::new();
        write_sum(&tree, &mut dice, &mut text);
        let read = Ope::from_str(&text).unwrap();
        assert_eq!(read.grad(), tree.grad());
        assert_eq!(read.grad(), read.grad());
    }
}
