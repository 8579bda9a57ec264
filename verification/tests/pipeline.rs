//! End-to-end tests: each expression string runs through the scanner, the
//! number resolution, the shunting-yard converter and the postfix reducer,
//! and the resulting tree is folded with single-precision arithmetic.

use calc::rpn::{evaluate_rpn, Expr};
use calc::scan::{resolve_numbers, tokenise};
use calc::token::{Error, Operator, RawToken};
use calc::yard::shunting_yard;

fn parse_outcomes(raw: &[RawToken]) -> Vec<Option<u32>> {
    let mut outcomes: Vec<Option<u32>> = Vec::new();
    for token in raw {
        let outcome = match token {
            RawToken::Number(lexeme) => {
                let text: String = lexeme.iter().collect();
                text.parse::<f32>().ok().map(f32::to_bits)
            }
            _ => None,
        };
        outcomes.push(outcome);
    }
    outcomes
}

fn fold(expr: &Expr) -> f32 {
    match expr {
        Expr::Number(bits) => f32::from_bits(*bits),
        Expr::Operation(operator, left, right) => {
            let l = fold(left);
            let r = fold(right);
            match operator {
                Operator::Add => l + r,
                Operator::Subtract => l - r,
                Operator::Multiply => l * r,
                Operator::Divide => l / r,
                Operator::Power => l.powf(r),
            }
        }
    }
}

fn try_evaluate(expression: &str) -> Result<f32, Error> {
    let raw = tokenise(expression);
    let outcomes = parse_outcomes(&raw);
    let tokens = resolve_numbers(&raw, &outcomes)?;
    let postfix = shunting_yard(tokens)?;
    let expr = evaluate_rpn(postfix)?;
    Ok(fold(&expr))
}

fn evaluate_expression(expression: &str) -> f32 {
    match try_evaluate(expression) {
        Ok(value) => value,
        Err(e) => panic!("evaluation failed: {:?}", e),
    }
}

#[test]
fn test_basic_operations() {
    assert_eq!(evaluate_expression("2+2"), 4.0);
    assert_eq!(evaluate_expression("5-3"), 2.0);
    assert_eq!(evaluate_expression("4*2"), 8.0);
    assert_eq!(evaluate_expression("8/2"), 4.0);
}

#[test]
fn test_operator_precedence() {
    assert_eq!(evaluate_expression("2+3*4"), 14.0);
    assert_eq!(evaluate_expression("2*3+4"), 10.0);
    assert_eq!(evaluate_expression("2+3*4-5"), 9.0);
}

#[test]
fn test_parentheses_handling() {
    assert_eq!(evaluate_expression("(2+3)*4"), 20.0);
    assert_eq!(evaluate_expression("2*(3+4)"), 14.0);
    assert_eq!(evaluate_expression("2*(3+4)-5"), 9.0);
}

#[test]
fn test_edge_cases() {
    assert_eq!(evaluate_expression("0+0"), 0.0);
    assert_eq!(evaluate_expression("0*1000"), 0.0);
    assert_eq!(evaluate_expression("1000000/1"), 1000000.0);
    assert_eq!(evaluate_expression("1/1000000"), 0.000001);
}

#[test]
fn test_power_is_right_associative() {
    assert_eq!(evaluate_expression("2^3^2"), 512.0);
    assert_eq!(evaluate_expression("2^3^2"), evaluate_expression("2^(3^2)"));
}

#[test]
fn test_left_associative_subtraction() {
    assert_eq!(evaluate_expression("10-3-2"), 5.0);
    assert_eq!(evaluate_expression("10-3-2"), evaluate_expression("(10-3)-2"));
}

#[test]
fn test_precedence_matches_explicit_grouping() {
    assert_eq!(evaluate_expression("2+3*4"), evaluate_expression("2+(3*4)"));
    assert_eq!(evaluate_expression("2*3^2"), evaluate_expression("2*(3^2)"));
}

#[test]
fn test_colon_is_divide_alias() {
    assert_eq!(evaluate_expression("8:2"), 4.0);
    assert_eq!(evaluate_expression("8:2"), evaluate_expression("8/2"));
    assert_eq!(evaluate_expression("9:3:3"), evaluate_expression("9/3/3"));
}

#[test]
fn test_whitespace_is_skipped() {
    assert_eq!(evaluate_expression(" 2 + 2 "), 4.0);
    assert_eq!(evaluate_expression("2 * (3 + 4) - 5"), 9.0);
    assert_eq!(evaluate_expression(" 2 + 2 "), evaluate_expression("2+2"));
}

#[test]
fn test_single_number() {
    assert_eq!(evaluate_expression("42"), 42.0);
    assert_eq!(evaluate_expression("1.5"), 1.5);
}

#[test]
fn test_decimal_arithmetic() {
    assert_eq!(evaluate_expression("1.5+2.25"), 3.75);
}

#[test]
fn test_division_by_zero_is_infinite() {
    let value = evaluate_expression("1/0");
    assert!(value.is_infinite() && value > 0.0);
}

#[test]
fn test_determinism() {
    assert_eq!(try_evaluate("2+3*4-5"), try_evaluate("2+3*4-5"));
    assert_eq!(try_evaluate("(1+2"), try_evaluate("(1+2"));
}

#[test]
fn test_trailing_operator_is_invalid() {
    assert_eq!(try_evaluate("1+"), Err(Error::InvalidExpression));
}

#[test]
fn test_empty_input_is_invalid() {
    assert_eq!(try_evaluate(""), Err(Error::InvalidExpression));
}

#[test]
fn test_leading_minus_is_invalid() {
    assert_eq!(try_evaluate("-1"), Err(Error::InvalidExpression));
}

#[test]
fn test_adjacent_numbers_are_invalid() {
    assert_eq!(try_evaluate("1 2"), Err(Error::InvalidExpression));
}

#[test]
fn test_mismatched_parentheses() {
    assert_eq!(try_evaluate("(1+2"), Err(Error::MismatchedParentheses));
    assert_eq!(try_evaluate("1+2)"), Err(Error::MismatchedParentheses));
    assert_eq!(try_evaluate("()"), Err(Error::InvalidExpression));
}

#[test]
fn test_unparsable_lexeme_is_invalid_number() {
    assert_eq!(try_evaluate("1,2,3"), Err(Error::InvalidNumber));
    assert_eq!(try_evaluate("1..5+2"), Err(Error::InvalidNumber));
}
