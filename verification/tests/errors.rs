use calculator::error::EvalError;
use calculator::interpreter::evaluate;
use calculator::token::TokenType;

#[test]
fn division_by_zero_is_reported() {
    assert_eq!(evaluate("5/0"), Err(EvalError::DivisionByZero));
    assert_eq!(evaluate("1+6/(3-3)"), Err(EvalError::DivisionByZero));
}

#[test]
fn truncated_input_fails_cleanly() {
    assert_eq!(
        evaluate("1+"),
        Err(EvalError::SyntaxError { expected: TokenType::Integer, found: TokenType::EndOfInput })
    );
    assert_eq!(
        evaluate(""),
        Err(EvalError::SyntaxError { expected: TokenType::Integer, found: TokenType::EndOfInput })
    );
    assert_eq!(
        evaluate("2*"),
        Err(EvalError::SyntaxError { expected: TokenType::Integer, found: TokenType::EndOfInput })
    );
}

#[test]
fn unbalanced_parens_fail_cleanly() {
    assert_eq!(
        evaluate("(1+2"),
        Err(EvalError::SyntaxError { expected: TokenType::RParen, found: TokenType::EndOfInput })
    );
    assert_eq!(
        evaluate("()"),
        Err(EvalError::SyntaxError { expected: TokenType::Integer, found: TokenType::RParen })
    );
}

#[test]
fn an_operator_is_no_operand() {
    assert_eq!(
        evaluate("1+*2"),
        Err(EvalError::SyntaxError { expected: TokenType::Integer, found: TokenType::Multiply })
    );
    assert_eq!(
        evaluate("-5"),
        Err(EvalError::SyntaxError { expected: TokenType::Integer, found: TokenType::Subtract })
    );
}

#[test]
fn unknown_characters_are_lexical_faults() {
    assert_eq!(
        evaluate("1 ? 2"),
        Err(EvalError::LexError { character: '?', position: 2 })
    );
    assert_eq!(
        evaluate("a+1"),
        Err(EvalError::LexError { character: 'a', position: 0 })
    );
}

#[test]
fn non_ascii_characters_are_lexical_faults() {
    assert_eq!(
        evaluate("2+é"),
        Err(EvalError::LexError { character: 'é', position: 2 })
    );
}

#[test]
fn literal_overflow_is_reported() {
    assert_eq!(evaluate("9999999999"), Err(EvalError::IntegerOverflow));
    assert_eq!(evaluate("2147483648"), Err(EvalError::IntegerOverflow));
}

#[test]
fn arithmetic_overflow_is_reported() {
    assert_eq!(evaluate("2000000000+2000000000"), Err(EvalError::IntegerOverflow));
    assert_eq!(evaluate("0-2147483647-2"), Err(EvalError::IntegerOverflow));
    assert_eq!(evaluate("100000*100000"), Err(EvalError::IntegerOverflow));
    assert_eq!(evaluate("(0-2147483647-1)/(0-1)"), Err(EvalError::IntegerOverflow));
}

#[test]
fn the_first_fault_wins() {
    // The parser holds one token of lookahead, so the lexical fault after
    // the `0` surfaces before the division is attempted.
    assert_eq!(
        evaluate("5/0 ?"),
        Err(EvalError::LexError { character: '?', position: 4 })
    );
}
