use calculator::error::EvalError;
use calculator::lexer::Lexer;
use calculator::token::{Token, TokenType};

#[test]
fn tokens_come_one_pull_at_a_time() {
    let source = String::from("12 + (345)");
    let mut lexer = Lexer::new(&source);

    let t = lexer.get_next_token().unwrap();
    assert_eq!(t.kind, TokenType::Integer);
    assert_eq!(t.value, "12");

    let t = lexer.get_next_token().unwrap();
    assert_eq!(t.kind, TokenType::Add);
    assert_eq!(t.value, "+");

    let t = lexer.get_next_token().unwrap();
    assert_eq!(t.kind, TokenType::LParen);
    assert_eq!(t.value, "(");

    let t = lexer.get_next_token().unwrap();
    assert_eq!(t.kind, TokenType::Integer);
    assert_eq!(t.value, "345");

    let t = lexer.get_next_token().unwrap();
    assert_eq!(t.kind, TokenType::RParen);
    assert_eq!(t.value, ")");

    let t = lexer.get_next_token().unwrap();
    assert_eq!(t.kind, TokenType::EndOfInput);
    assert_eq!(t.value, "");
}

#[test]
fn every_operator_has_its_own_kind() {
    let source = String::from("+-*/");
    let mut lexer = Lexer::new(&source);
    assert_eq!(lexer.get_next_token().unwrap().kind, TokenType::Add);
    assert_eq!(lexer.get_next_token().unwrap().kind, TokenType::Subtract);
    assert_eq!(lexer.get_next_token().unwrap().kind, TokenType::Multiply);
    assert_eq!(lexer.get_next_token().unwrap().kind, TokenType::Divide);
    assert_eq!(lexer.get_next_token().unwrap().kind, TokenType::EndOfInput);
}

#[test]
fn end_of_input_is_idempotent() {
    let source = String::from("7");
    let mut lexer = Lexer::new(&source);
    assert_eq!(lexer.get_next_token().unwrap().kind, TokenType::Integer);
    for _ in 0..8 {
        let t = lexer.get_next_token().unwrap();
        assert_eq!(t.kind, TokenType::EndOfInput);
        assert_eq!(t.value, "");
    }
}

#[test]
fn whitespace_is_skipped_before_a_token() {
    let source = String::from("   42   ");
    let mut lexer = Lexer::new(&source);
    let t = lexer.get_next_token().unwrap();
    assert_eq!(t.kind, TokenType::Integer);
    assert_eq!(t.value, "42");
    assert_eq!(lexer.get_next_token().unwrap().kind, TokenType::EndOfInput);
}

#[test]
fn an_unknown_character_is_reported_with_its_position() {
    let source = String::from("5 $");
    let mut lexer = Lexer::new(&source);
    assert_eq!(lexer.get_next_token().unwrap().kind, TokenType::Integer);
    assert_eq!(
        lexer.get_next_token(),
        Err(EvalError::LexError { character: '$', position: 2 })
    );
    // The cursor does not pass the offending character: the fault repeats.
    assert_eq!(
        lexer.get_next_token(),
        Err(EvalError::LexError { character: '$', position: 2 })
    );
}

#[test]
fn eof_token_is_empty() {
    let t = Token::eof();
    assert_eq!(t.kind, TokenType::EndOfInput);
    assert_eq!(t.value, "");
}
