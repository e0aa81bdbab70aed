use vstd::prelude::*;

use crate::token::TokenType;

verus! {

/// The single structured failure surfaced to the caller: the first lexical,
/// syntactic, or arithmetic fault aborts the whole evaluation.
#[derive(Clone, Copy, Debug, PartialEq, Eq, Structural)]
pub enum EvalError {
    /// An input character does not belong to the token alphabet.
    LexError { character: char, position: usize },
    /// The next token does not match what the current grammar production
    /// requires. Input that ends mid-production shows up here with
    /// `found == TokenType::EndOfInput`.
    SyntaxError { expected: TokenType, found: TokenType },
    /// The right-hand operand of `/` evaluated to zero.
    DivisionByZero,
    /// A literal or an intermediate result does not fit in `i32`.
    IntegerOverflow,
}

} // verus!
