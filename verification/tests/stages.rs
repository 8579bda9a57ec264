//! Stage-level tests: the token sequences each stage produces, observed
//! directly.

use calc::rpn::{evaluate_rpn, Expr};
use calc::scan::{resolve_numbers, tokenise};
use calc::token::{Associativity, Error, Operator, Parenthesis, RawToken, Token};
use calc::yard::shunting_yard;

fn lexeme(text: &str) -> RawToken {
    let chars: Vec<char> = text.chars().collect();
    RawToken::Number(chars)
}

#[test]
fn test_operator_table() {
    assert_eq!(Operator::Add.precedence(), 1);
    assert_eq!(Operator::Subtract.precedence(), 1);
    assert_eq!(Operator::Multiply.precedence(), 2);
    assert_eq!(Operator::Divide.precedence(), 2);
    assert_eq!(Operator::Power.precedence(), 3);
    assert!(Operator::Add.associativity().is_left());
    assert!(Operator::Subtract.associativity().is_left());
    assert!(Operator::Multiply.associativity().is_left());
    assert!(Operator::Divide.associativity().is_left());
    assert!(Operator::Power.associativity().is_right());
    assert!(!Operator::Power.associativity().is_left());
    assert!(!Associativity::Left.is_right());
}

#[test]
fn test_tokenise_segments_lexemes_and_symbols() {
    assert_eq!(
        tokenise("2+10.5"),
        vec![
            lexeme("2"),
            RawToken::Operator(Operator::Add),
            lexeme("10.5"),
        ]
    );
    assert_eq!(
        tokenise("(1-2)*3:4^5"),
        vec![
            RawToken::Parenthesis(Parenthesis::Left),
            lexeme("1"),
            RawToken::Operator(Operator::Subtract),
            lexeme("2"),
            RawToken::Parenthesis(Parenthesis::Right),
            RawToken::Operator(Operator::Multiply),
            lexeme("3"),
            RawToken::Operator(Operator::Divide),
            lexeme("4"),
            RawToken::Operator(Operator::Power),
            lexeme("5"),
        ]
    );
}

#[test]
fn test_tokenise_skips_unrecognised_characters() {
    assert_eq!(tokenise("  "), vec![]);
    assert_eq!(
        tokenise("1 2x3"),
        vec![lexeme("1"), lexeme("2"), lexeme("3")]
    );
    assert_eq!(tokenise("a+b"), vec![RawToken::Operator(Operator::Add)]);
}

#[test]
fn test_tokenise_keeps_comma_in_lexeme() {
    assert_eq!(tokenise("1,5"), vec![lexeme("1,5")]);
}

#[test]
fn test_resolve_numbers_attaches_values() {
    let raw = tokenise("2+3");
    let outcomes = vec![Some(2.0f32.to_bits()), None, Some(3.0f32.to_bits())];
    let tokens = resolve_numbers(&raw, &outcomes).unwrap();
    assert_eq!(
        tokens,
        vec![
            Token::Number(2.0f32.to_bits()),
            Token::Operator(Operator::Add),
            Token::Number(3.0f32.to_bits()),
        ]
    );
}

#[test]
fn test_resolve_numbers_reports_failed_parse() {
    let raw = tokenise("2+3");
    let outcomes = vec![Some(2.0f32.to_bits()), None, None];
    assert_eq!(resolve_numbers(&raw, &outcomes), Err(Error::InvalidNumber));
}

#[test]
fn test_shunting_yard_reorders_by_precedence() {
    let two = Token::Number(2.0f32.to_bits());
    let three = Token::Number(3.0f32.to_bits());
    let four = Token::Number(4.0f32.to_bits());
    let plus = Token::Operator(Operator::Add);
    let times = Token::Operator(Operator::Multiply);
    let infix = vec![two, plus, three, times, four];
    assert_eq!(
        shunting_yard(infix).unwrap(),
        vec![two, three, four, times, plus]
    );
}

#[test]
fn test_shunting_yard_discards_parentheses() {
    let one = Token::Number(1.0f32.to_bits());
    let two = Token::Number(2.0f32.to_bits());
    let plus = Token::Operator(Operator::Add);
    let infix = vec![
        Token::Parenthesis(Parenthesis::Left),
        one,
        plus,
        two,
        Token::Parenthesis(Parenthesis::Right),
    ];
    assert_eq!(shunting_yard(infix).unwrap(), vec![one, two, plus]);
}

#[test]
fn test_shunting_yard_rejects_unmatched_parentheses() {
    let one = Token::Number(1.0f32.to_bits());
    assert_eq!(
        shunting_yard(vec![Token::Parenthesis(Parenthesis::Right), one]),
        Err(Error::MismatchedParentheses)
    );
    assert_eq!(
        shunting_yard(vec![Token::Parenthesis(Parenthesis::Left), one]),
        Err(Error::MismatchedParentheses)
    );
}

#[test]
fn test_evaluate_rpn_builds_the_expression() {
    let two = 2.0f32.to_bits();
    let three = 3.0f32.to_bits();
    let postfix = vec![
        Token::Number(two),
        Token::Number(three),
        Token::Operator(Operator::Add),
    ];
    assert_eq!(
        evaluate_rpn(postfix),
        Ok(Expr::Operation(
            Operator::Add,
            Box::new(Expr::Number(two)),
            Box::new(Expr::Number(three)),
        ))
    );
}

#[test]
fn test_evaluate_rpn_rejects_underflow_and_parentheses() {
    let one = Token::Number(1.0f32.to_bits());
    let plus = Token::Operator(Operator::Add);
    assert_eq!(evaluate_rpn(vec![one, plus]), Err(Error::InvalidExpression));
    assert_eq!(evaluate_rpn(vec![]), Err(Error::InvalidExpression));
    assert_eq!(evaluate_rpn(vec![one, one]), Err(Error::InvalidExpression));
    assert_eq!(
        evaluate_rpn(vec![Token::Parenthesis(Parenthesis::Left)]),
        Err(Error::InvalidExpression)
    );
}
