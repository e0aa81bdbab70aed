use calculator::error::EvalError;
use calculator::interpreter::evaluate;
use calculator::token::TokenType;

#[test]
fn evaluates_addition_and_subtraction() {
    assert_eq!(evaluate("1+1+2"), Ok(4));
    assert_eq!(evaluate("5-1-1"), Ok(3));
}

#[test]
fn evaluates_multiplication_and_division() {
    assert_eq!(evaluate("2*3"), Ok(6));
    assert_eq!(evaluate("4/2"), Ok(2));
}

#[test]
fn mixed_precedence_is_left_associative() {
    assert_eq!(evaluate("5 * 2 / 2 + 5 * 2"), Ok(15));
    assert_eq!(evaluate("6-2-1"), Ok(3));
    assert_eq!(evaluate("2+3*4"), Ok(14));
    assert_eq!(evaluate("20/2/5"), Ok(2));
}

#[test]
fn whitespace_between_tokens_is_insignificant() {
    assert_eq!(evaluate("5     +      6"), Ok(11));
    assert_eq!(evaluate("5+6"), Ok(11));
    assert_eq!(evaluate("  12  "), Ok(12));
}

#[test]
fn parentheses_override_precedence() {
    assert_eq!(evaluate("7 - (3 - 1)"), Ok(5));
    assert_eq!(evaluate("(2+3)*4"), Ok(20));
}

#[test]
fn nested_redundant_parens_are_transparent() {
    assert_eq!(evaluate("7 + (((3+2)))"), Ok(12));
    assert_eq!(evaluate("((((1))))"), Ok(1));
}

#[test]
fn multi_digit_literals() {
    assert_eq!(evaluate("123+456"), Ok(579));
    assert_eq!(evaluate("2147483647"), Ok(2147483647));
}

#[test]
fn division_truncates_toward_zero() {
    assert_eq!(evaluate("7/2"), Ok(3));
    assert_eq!(evaluate("7/(1-3)"), Ok(-3));
    assert_eq!(evaluate("(1-8)/2"), Ok(-3));
    assert_eq!(evaluate("(1-5)/(2-4)"), Ok(2));
}

#[test]
fn trailing_garbage_is_rejected() {
    assert_eq!(
        evaluate("1+2)"),
        Err(EvalError::SyntaxError { expected: TokenType::EndOfInput, found: TokenType::RParen })
    );
    assert_eq!(
        evaluate("3 4"),
        Err(EvalError::SyntaxError { expected: TokenType::EndOfInput, found: TokenType::Integer })
    );
}

#[test]
fn wrapping_in_parens_preserves_the_value() {
    for src in ["12", "1+2*3", "7 - (3 - 1)", "6-2-1"] {
        let wrapped = format!("({})", src);
        assert_eq!(evaluate(&wrapped), evaluate(src));
    }
}

#[test]
fn padding_with_spaces_preserves_the_value() {
    assert_eq!(evaluate(" 1 + 2 * 3 "), evaluate("1+2*3"));
    assert_eq!(evaluate("( 2 + 3 ) * 4"), evaluate("(2+3)*4"));
    assert_eq!(evaluate("12   /   5"), evaluate("12/5"));
}

#[test]
fn evaluation_is_deterministic() {
    let source = "5 * 2 / 2 + 5 * 2";
    let first = evaluate(source);
    for _ in 0..16 {
        assert_eq!(evaluate(source), first);
    }
    let failing = "(1+2";
    let first_err = evaluate(failing);
    for _ in 0..16 {
        assert_eq!(evaluate(failing), first_err);
    }
}
