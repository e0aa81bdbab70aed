//! A verified evaluator for arithmetic expressions over non-negative integer
//! literals, the operators `+ - * /`, and parenthesized grouping.
//!
//! The [`lexer::Lexer`] turns a source string into tokens one pull at a time;
//! the [`interpreter::Interpreter`] drives those pulls through an LL(1)
//! recursive descent and computes the integer result in the same pass.
//! [`interpreter::evaluate`] is the one-shot entry point.

pub mod error;
pub mod interpreter;
pub mod lexer;
pub mod token;
