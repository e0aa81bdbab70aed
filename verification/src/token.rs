use vstd::prelude::*;

verus! {

/// The closed set of token kinds the lexer can produce.
#[derive(Clone, Copy, Debug, PartialEq, Eq, Structural)]
pub enum TokenType {
    Integer,
    LParen,
    RParen,
    Add,
    Subtract,
    Multiply,
    Divide,
    EndOfInput,
}

/// A classified lexeme: a token kind together with the exact substring of the
/// source it was scanned from.
#[derive(PartialEq, Debug, Clone)]
pub struct Token {
    pub kind: TokenType,
    pub value: String,
}

/// Whether `c` is an ASCII decimal digit.
pub open spec fn is_digit_char(c: char) -> bool {
    '0' as u32 <= c as u32 && c as u32 <= '9' as u32
}

/// Whether `c` is the one whitespace character the lexer skips.
pub open spec fn is_space_char(c: char) -> bool {
    c == ' '
}

/// The numeric value of a single ASCII digit.
pub open spec fn digit_val(c: char) -> int {
    c as u32 - '0' as u32
}

/// The base-10 value of a run of ASCII digits.
pub open spec fn digits_val(s: Seq<char>) -> int
    decreases s.len(),
{
    if s.len() == 0 {
        0
    } else {
        digits_val(s.drop_last()) * 10 + digit_val(s.last())
    }
}

/// The lexeme discipline every produced token obeys: an `Integer` token
/// carries a non-empty run of ASCII digits, an operator or parenthesis token
/// carries exactly its single character, and `EndOfInput` carries nothing.
pub open spec fn token_wf(kind: TokenType, lexeme: Seq<char>) -> bool {
    match kind {
        TokenType::Integer => lexeme.len() > 0 && forall|i: int|
            0 <= i < lexeme.len() ==> is_digit_char(#[trigger] lexeme[i]),
        TokenType::LParen => lexeme.len() == 1 && lexeme[0] == '(',
        TokenType::RParen => lexeme.len() == 1 && lexeme[0] == ')',
        TokenType::Add => lexeme.len() == 1 && lexeme[0] == '+',
        TokenType::Subtract => lexeme.len() == 1 && lexeme[0] == '-',
        TokenType::Multiply => lexeme.len() == 1 && lexeme[0] == '*',
        TokenType::Divide => lexeme.len() == 1 && lexeme[0] == '/',
        TokenType::EndOfInput => lexeme.len() == 0,
    }
}

/// The value of a digit run is never negative.
pub proof fn lemma_digits_val_nonneg(s: Seq<char>)
    requires
        forall|i: int| 0 <= i < s.len() ==> is_digit_char(#[trigger] s[i]),
    ensures
        digits_val(s) >= 0,
    decreases s.len(),
{
    if s.len() > 0 {
        lemma_digits_val_nonneg(s.drop_last());
    }
}

/// Extending a digit run by one digit multiplies its value by ten and adds
/// that digit.
pub proof fn lemma_digits_val_step(s: Seq<char>, k: int)
    requires
        0 <= k < s.len(),
    ensures
        digits_val(s.take(k + 1)) == digits_val(s.take(k)) * 10 + digit_val(s[k]),
{
    assert(s.take(k + 1).drop_last() =~= s.take(k));
    assert(s.take(k + 1).last() == s[k]);
}

/// A digit run is worth at least any of its prefixes.
pub proof fn lemma_digits_val_take_bound(s: Seq<char>, k: int)
    requires
        0 <= k <= s.len(),
        forall|i: int| 0 <= i < s.len() ==> is_digit_char(#[trigger] s[i]),
    ensures
        digits_val(s.take(k)) <= digits_val(s),
    decreases s.len() - k,
{
    if k == s.len() {
        assert(s.take(k) =~= s);
    } else {
        assert(forall|i: int| 0 <= i < k ==> is_digit_char(#[trigger] s.take(k)[i]));
        lemma_digits_val_nonneg(s.take(k));
        lemma_digits_val_step(s, k);
        lemma_digits_val_take_bound(s, k + 1);
    }
}

impl Token {
    /// The token returned once the source is exhausted.
    pub fn eof() -> (t: Token)
        ensures
            t.kind == TokenType::EndOfInput,
            t.value@ == Seq::<char>::empty(),
    {
        Token { kind: TokenType::EndOfInput, value: String::new() }
    }
}

} // verus!
