use symdiff::decimal::Decimal;
use symdiff::lexing::{tokenize, Token};
use symdiff::text::to_chars;

fn tokens_of(text: &str) -> (Vec<Token>, Vec<usize>) {
    tokenize(&to_chars(text))
}

#[test]
fn characters_of_a_text() {
    assert_eq!(to_chars(""), Vec::<char>::new());
    assert_eq!(to_chars("x+é"), vec!['x', '+', 'é']);
}

#[test]
fn empty_text_is_the_end() {
    assert_eq!(tokens_of(""), (vec![Token::End], vec![0]));
    assert_eq!(tokens_of("  \t"), (vec![Token::End], vec![3]));
}

#[test]
fn every_kind_of_token() {
    let (tokens, starts) = tokens_of("( x ^ 2.5 + a ) * 10");
    assert_eq!(
        tokens,
        vec![
            Token::Open,
            Token::Variable,
            Token::Caret,
            Token::Number(Decimal::from_literal("2.5").unwrap()),
            Token::Plus,
            Token::Symbol('a'),
            Token::Close,
            Token::Star,
            Token::Number(Decimal::from_i64(10)),
            Token::End,
        ]
    );
    assert_eq!(starts, vec![0, 2, 4, 6, 10, 12, 14, 16, 18, 20]);
}

#[test]
fn stops_at_the_first_character_that_starts_no_token() {
    let (tokens, starts) = tokens_of("x - + 1");
    assert_eq!(tokens, vec![Token::Variable, Token::Invalid]);
    assert_eq!(starts, vec![0, 2]);
}

#[test]
fn a_number_takes_all_it_can() {
    let (tokens, starts) = tokens_of("12.5.25x");
    assert_eq!(
        tokens,
        vec![
            Token::Number(Decimal::from_literal("12.5").unwrap()),
            Token::Invalid,
        ]
    );
    assert_eq!(starts, vec![0, 4]);
    let (tokens, starts) = tokens_of("12x3");
    assert_eq!(
        tokens,
        vec![
            Token::Number(Decimal::from_i64(12)),
            Token::Variable,
            Token::Number(Decimal::from_i64(3)),
            Token::End,
        ]
    );
    assert_eq!(starts, vec![0, 2, 3, 4]);
}

#[test]
fn positions_count_characters() {
    let (tokens, starts) = tokens_of("é");
    assert_eq!(tokens, vec![Token::Invalid]);
    assert_eq!(starts, vec![0]);
}
