use vstd::prelude::*;

use crate::error::EvalError;
use crate::token::{is_digit_char, is_space_char, token_wf, Token, TokenType};

verus! {

/// Where a token stream stands after one pull: the token just produced and
/// the cursor position right after its last character.
#[verifier::ext_equal]
pub struct LexState {
    pub kind: TokenType,
    pub lexeme: Seq<char>,
    pub pos: int,
}

/// The first index at or after `i` holding a non-space character, or the end
/// of the source if only spaces remain.
pub open spec fn skip_spaces(s: Seq<char>, i: int) -> int
    decreases s.len() - i
        when 0 <= i <= s.len()
{
    if i < s.len() && is_space_char(s[i]) {
        skip_spaces(s, i + 1)
    } else {
        i
    }
}

/// The end of the maximal run of ASCII digits starting at `i`.
pub open spec fn digit_run_end(s: Seq<char>, i: int) -> int
    decreases s.len() - i
        when 0 <= i <= s.len()
{
    if i < s.len() && is_digit_char(s[i]) {
        digit_run_end(s, i + 1)
    } else {
        i
    }
}

/// What one pull of the lexer from position `i` produces: skip contiguous
/// spaces, then classify the character found there. `Err` carries the
/// offending character and its position.
pub open spec fn spec_next(s: Seq<char>, i: int) -> Result<LexState, (char, int)> {
    let j = skip_spaces(s, i);
    if j >= s.len() {
        Ok(LexState { kind: TokenType::EndOfInput, lexeme: Seq::empty(), pos: j })
    } else if is_digit_char(s[j]) {
        let k = digit_run_end(s, j);
        Ok(LexState { kind: TokenType::Integer, lexeme: s.subrange(j, k), pos: k })
    } else if s[j] == '+' {
        Ok(LexState { kind: TokenType::Add, lexeme: seq!['+'], pos: j + 1 })
    } else if s[j] == '-' {
        Ok(LexState { kind: TokenType::Subtract, lexeme: seq!['-'], pos: j + 1 })
    } else if s[j] == '*' {
        Ok(LexState { kind: TokenType::Multiply, lexeme: seq!['*'], pos: j + 1 })
    } else if s[j] == '/' {
        Ok(LexState { kind: TokenType::Divide, lexeme: seq!['/'], pos: j + 1 })
    } else if s[j] == '(' {
        Ok(LexState { kind: TokenType::LParen, lexeme: seq!['('], pos: j + 1 })
    } else if s[j] == ')' {
        Ok(LexState { kind: TokenType::RParen, lexeme: seq![')'], pos: j + 1 })
    } else {
        Err((s[j], j))
    }
}

/// A lex state the parser can trust: the cursor is inside the source and the
/// held token obeys the lexeme discipline.
pub open spec fn wf_state(s: Seq<char>, st: LexState) -> bool {
    0 <= st.pos <= s.len() && token_wf(st.kind, st.lexeme)
}

/// How much input is left to consume from state `st`, counting the held token
/// as one extra unit until `EndOfInput` is reached. Every token the parser
/// eats strictly shrinks this measure, which grounds the recursive descent.
pub open spec fn lex_measure(s: Seq<char>, st: LexState) -> int {
    s.len() - st.pos + if st.kind == TokenType::EndOfInput {
        0int
    } else {
        1int
    }
}

pub proof fn lemma_skip_spaces_bounds(s: Seq<char>, i: int)
    requires
        0 <= i <= s.len(),
    ensures
        i <= skip_spaces(s, i) <= s.len(),
        skip_spaces(s, i) < s.len() ==> !is_space_char(s[skip_spaces(s, i)]),
    decreases s.len() - i,
{
    if i < s.len() && is_space_char(s[i]) {
        lemma_skip_spaces_bounds(s, i + 1);
    }
}

pub proof fn lemma_digit_run_bounds(s: Seq<char>, i: int)
    requires
        0 <= i <= s.len(),
    ensures
        i <= digit_run_end(s, i) <= s.len(),
        i < s.len() && is_digit_char(s[i]) ==> i < digit_run_end(s, i),
        forall|k: int| i <= k < digit_run_end(s, i) ==> is_digit_char(#[trigger] s[k]),
    decreases s.len() - i,
{
    if i < s.len() && is_digit_char(s[i]) {
        lemma_digit_run_bounds(s, i + 1);
    }
}

/// One pull never moves the cursor backwards, stays within the source, and
/// yields a token obeying the lexeme discipline. A token other than
/// `EndOfInput` consumes at least one character; `EndOfInput` is only
/// produced with the cursor at the very end.
pub proof fn lemma_spec_next_ok(s: Seq<char>, i: int)
    requires
        0 <= i <= s.len(),
    ensures
        match spec_next(s, i) {
            Ok(st) => {
                &&& i <= st.pos <= s.len()
                &&& token_wf(st.kind, st.lexeme)
                &&& (st.kind != TokenType::EndOfInput ==> i < st.pos)
                &&& (st.kind == TokenType::EndOfInput ==> st.pos == s.len())
            },
            Err((c, p)) => i <= p < s.len() && c == s[p],
        },
{
    lemma_skip_spaces_bounds(s, i);
    let j = skip_spaces(s, i);
    if j < s.len() && is_digit_char(s[j]) {
        lemma_digit_run_bounds(s, j);
        let k = digit_run_end(s, j);
        assert(s.subrange(j, k).len() == k - j);
        assert(forall|q: int|
            0 <= q < k - j ==> is_digit_char(#[trigger] s.subrange(j, k)[q]));
    }
}

/// Pulling once from a well-formed state keeps the state well formed and
/// never grows the measure; it strictly shrinks it unless the held token was
/// already `EndOfInput`.
pub proof fn lemma_eat_measure(s: Seq<char>, st: LexState)
    requires
        wf_state(s, st),
    ensures
        match spec_next(s, st.pos) {
            Ok(st2) => {
                &&& wf_state(s, st2)
                &&& lex_measure(s, st2) <= lex_measure(s, st)
                &&& (st.kind != TokenType::EndOfInput ==> lex_measure(s, st2) < lex_measure(
                    s,
                    st,
                ))
            },
            Err(e) => true,
        },
{
    lemma_spec_next_ok(s, st.pos);
}

/// Once the lexer has produced `EndOfInput`, every further pull produces it
/// again, from the same position: the stream is idempotent at its end.
pub proof fn lemma_end_of_input_stable(s: Seq<char>, i: int)
    requires
        0 <= i <= s.len(),
        spec_next(s, i) matches Ok(st) && st.kind == TokenType::EndOfInput,
    ensures
        spec_next(s, i)->Ok_0.pos == s.len(),
        spec_next(s, spec_next(s, i)->Ok_0.pos) == spec_next(s, i),
{
    lemma_spec_next_ok(s, i);
    let st = spec_next(s, i)->Ok_0;
    lemma_skip_spaces_bounds(s, st.pos);
    assert(spec_next(s, st.pos)->Ok_0 =~= st);
}

/// The source text with one more pair of parentheses around it.
pub open spec fn wrap_src(s: Seq<char>) -> Seq<char> {
    seq!['('] + s + seq![')']
}

/// How a lex state of `s` reads inside `wrap_src(s)`: every token shifts one
/// position right, and where `s` is exhausted the wrapped source shows the
/// closing parenthesis instead.
pub open spec fn wrap_state(s: Seq<char>, st: LexState) -> LexState {
    if st.kind == TokenType::EndOfInput {
        LexState { kind: TokenType::RParen, lexeme: seq![')'], pos: s.len() as int + 2 }
    } else {
        LexState { kind: st.kind, lexeme: st.lexeme, pos: st.pos + 1 }
    }
}

/// A well-formed state of `s` reads as a well-formed state of `wrap_src(s)`.
pub proof fn lemma_wrap_state_wf(s: Seq<char>, st: LexState)
    requires
        wf_state(s, st),
    ensures
        wf_state(wrap_src(s), wrap_state(s, st)),
{
}

proof fn lemma_skip_spaces_shift(s: Seq<char>, i: int)
    requires
        0 <= i <= s.len(),
    ensures
        skip_spaces(wrap_src(s), i + 1) == skip_spaces(s, i) + 1,
    decreases s.len() - i,
{
    let w = wrap_src(s);
    if i < s.len() {
        assert(w[i + 1] == s[i]);
        if is_space_char(s[i]) {
            lemma_skip_spaces_shift(s, i + 1);
        }
    } else {
        assert(w[i + 1] == ')');
    }
}

proof fn lemma_digit_run_shift(s: Seq<char>, i: int)
    requires
        0 <= i <= s.len(),
    ensures
        digit_run_end(wrap_src(s), i + 1) == digit_run_end(s, i) + 1,
    decreases s.len() - i,
{
    let w = wrap_src(s);
    if i < s.len() {
        assert(w[i + 1] == s[i]);
        if is_digit_char(s[i]) {
            lemma_digit_run_shift(s, i + 1);
        }
    } else {
        assert(w[i + 1] == ')');
    }
}

/// Each pull of the lexer reads the same inside the wrapped source, one
/// position to the right; only the exhausted stream turns into the closing
/// parenthesis.
pub proof fn lemma_spec_next_wrap(s: Seq<char>, i: int)
    requires
        0 <= i <= s.len(),
    ensures
        match spec_next(s, i) {
            Ok(st) => spec_next(wrap_src(s), i + 1) == Ok::<LexState, (char, int)>(
                wrap_state(s, st),
            ),
            Err((c, p)) => spec_next(wrap_src(s), i + 1) == Err::<LexState, (char, int)>(
                (c, p + 1),
            ),
        },
{
    let w = wrap_src(s);
    lemma_skip_spaces_bounds(s, i);
    lemma_skip_spaces_shift(s, i);
    let j = skip_spaces(s, i);
    if j >= s.len() {
        assert(w[j + 1] == ')');
        assert(spec_next(w, i + 1)->Ok_0 =~= wrap_state(s, spec_next(s, i)->Ok_0));
    } else {
        assert(w[j + 1] == s[j]);
        if is_digit_char(s[j]) {
            lemma_digit_run_bounds(s, j);
            lemma_digit_run_shift(s, j);
            let k = digit_run_end(s, j);
            assert(w.subrange(j + 1, k + 1) =~= s.subrange(j, k));
            assert(spec_next(w, i + 1)->Ok_0 =~= wrap_state(s, spec_next(s, i)->Ok_0));
        } else if s[j] == '+' || s[j] == '-' || s[j] == '*' || s[j] == '/' || s[j] == '('
            || s[j] == ')' {
            assert(spec_next(w, i + 1)->Ok_0 =~= wrap_state(s, spec_next(s, i)->Ok_0));
        }
    }
}

/// The source text with one space inserted at position `p`.
pub open spec fn insert_space(s: Seq<char>, p: int) -> Seq<char> {
    s.take(p) + seq![' '] + s.skip(p)
}

/// Whether position `p` falls between tokens: a space inserted there splits
/// no integer literal, because the characters on its two sides are not both
/// digits.
pub open spec fn space_insertable(s: Seq<char>, p: int) -> bool {
    0 <= p <= s.len() && !(0 < p < s.len() && is_digit_char(s[p - 1]) && is_digit_char(s[p]))
}

/// How a lex state of `s` reads inside `insert_space(s, p)`: the same token,
/// with the cursor shifted right by one once it passes the insertion point.
pub open spec fn ins_state(s: Seq<char>, p: int, st: LexState) -> LexState {
    if st.kind == TokenType::EndOfInput {
        LexState { kind: st.kind, lexeme: st.lexeme, pos: s.len() as int + 1 }
    } else {
        LexState {
            kind: st.kind,
            lexeme: st.lexeme,
            pos: if st.pos <= p {
                st.pos
            } else {
                st.pos + 1
            },
        }
    }
}

/// A well-formed state of `s` reads as a well-formed state of the padded
/// source.
pub proof fn lemma_ins_state_wf(s: Seq<char>, p: int, st: LexState)
    requires
        wf_state(s, st),
        0 <= p <= s.len(),
    ensures
        wf_state(insert_space(s, p), ins_state(s, p, st)),
{
}

proof fn lemma_skip_spaces_insert_after(s: Seq<char>, p: int, i: int)
    requires
        0 <= p <= i <= s.len(),
    ensures
        skip_spaces(insert_space(s, p), i + 1) == skip_spaces(s, i) + 1,
    decreases s.len() - i,
{
    let w = insert_space(s, p);
    if i < s.len() {
        assert(w[i + 1] == s[i]);
        if is_space_char(s[i]) {
            lemma_skip_spaces_insert_after(s, p, i + 1);
        }
    }
}

proof fn lemma_skip_spaces_insert_before(s: Seq<char>, p: int, i: int)
    requires
        0 <= i <= p <= s.len(),
    ensures
        skip_spaces(insert_space(s, p), i) == if skip_spaces(s, i) < p {
            skip_spaces(s, i)
        } else {
            skip_spaces(s, i) + 1
        },
    decreases p - i,
{
    let w = insert_space(s, p);
    lemma_skip_spaces_bounds(s, i);
    if i == p {
        assert(w[i] == ' ');
        lemma_skip_spaces_insert_after(s, p, i);
    } else {
        assert(w[i] == s[i]);
        if is_space_char(s[i]) {
            lemma_skip_spaces_insert_before(s, p, i + 1);
        }
    }
}

proof fn lemma_digit_run_insert_after(s: Seq<char>, p: int, j: int)
    requires
        0 <= p <= j <= s.len(),
    ensures
        digit_run_end(insert_space(s, p), j + 1) == digit_run_end(s, j) + 1,
    decreases s.len() - j,
{
    let w = insert_space(s, p);
    if j < s.len() {
        assert(w[j + 1] == s[j]);
        if is_digit_char(s[j]) {
            lemma_digit_run_insert_after(s, p, j + 1);
        }
    }
}

proof fn lemma_digit_run_insert_before(s: Seq<char>, p: int, j: int)
    requires
        space_insertable(s, p),
        0 <= j < p,
    ensures
        digit_run_end(insert_space(s, p), j) == digit_run_end(s, j),
        digit_run_end(s, j) <= p,
    decreases p - j,
{
    let w = insert_space(s, p);
    assert(w[j] == s[j]);
    if is_digit_char(s[j]) {
        if j + 1 == p {
            // The run cannot continue past the insertion point: the character
            // before it is a digit, so the one after it is not.
            assert(w[p] == ' ');
            if p < s.len() {
                assert(!is_digit_char(s[p]));
            }
            reveal_with_fuel(digit_run_end, 3);
            assert(digit_run_end(s, j) == p);
            assert(digit_run_end(w, j) == p);
        } else {
            lemma_digit_run_insert_before(s, p, j + 1);
        }
    }
}

/// Each pull of the lexer reads the same token on both sides of an inserted
/// space, with the cursor shifted right by one once it passes the insertion
/// point.
pub proof fn lemma_spec_next_insert(s: Seq<char>, p: int, i: int)
    requires
        space_insertable(s, p),
        0 <= i <= s.len(),
    ensures
        match spec_next(s, i) {
            Ok(st) => spec_next(
                insert_space(s, p),
                if i <= p {
                    i
                } else {
                    i + 1
                },
            ) == Ok::<LexState, (char, int)>(ins_state(s, p, st)),
            Err(e) => true,
        },
{
    let w = insert_space(s, p);
    lemma_skip_spaces_bounds(s, i);
    let j = skip_spaces(s, i);
    if i <= p {
        lemma_skip_spaces_insert_before(s, p, i);
    } else {
        lemma_skip_spaces_insert_after(s, p, i);
    }
    if j >= s.len() {
        assert(spec_next(w, if i <= p { i } else { i + 1 })->Ok_0 =~= ins_state(
            s,
            p,
            spec_next(s, i)->Ok_0,
        ));
    } else if j < p {
        assert(w[j] == s[j]);
        if is_digit_char(s[j]) {
            lemma_digit_run_bounds(s, j);
            lemma_digit_run_insert_before(s, p, j);
            let k = digit_run_end(s, j);
            assert(w.subrange(j, k) =~= s.subrange(j, k));
            assert(spec_next(w, if i <= p { i } else { i + 1 })->Ok_0 =~= ins_state(
                s,
                p,
                spec_next(s, i)->Ok_0,
            ));
        } else if s[j] == '+' || s[j] == '-' || s[j] == '*' || s[j] == '/' || s[j] == '(' || s[j]
            == ')' {
            assert(spec_next(w, if i <= p { i } else { i + 1 })->Ok_0 =~= ins_state(
                s,
                p,
                spec_next(s, i)->Ok_0,
            ));
        }
    } else {
        assert(w[j + 1] == s[j]);
        if is_digit_char(s[j]) {
            lemma_digit_run_bounds(s, j);
            lemma_digit_run_insert_after(s, p, j);
            let k = digit_run_end(s, j);
            assert(w.subrange(j + 1, k + 1) =~= s.subrange(j, k));
            assert(spec_next(w, if i <= p { i } else { i + 1 })->Ok_0 =~= ins_state(
                s,
                p,
                spec_next(s, i)->Ok_0,
            ));
        } else if s[j] == '+' || s[j] == '-' || s[j] == '*' || s[j] == '/' || s[j] == '(' || s[j]
            == ')' {
            assert(spec_next(w, if i <= p { i } else { i + 1 })->Ok_0 =~= ins_state(
                s,
                p,
                spec_next(s, i)->Ok_0,
            ));
        }
    }
}

/// The pull-based tokenizer: a cursor over the source text that only ever
/// moves forward, yielding one token per call to [`Lexer::get_next_token`].
pub struct Lexer<'a> {
    input: &'a str,
    pos: usize,
    len: usize,
}

impl<'a> Lexer<'a> {
    /// The source text this lexer scans.
    pub closed spec fn src(self) -> Seq<char> {
        self.input@
    }

    /// The cursor position, in characters from the start of the source.
    pub closed spec fn at(self) -> int {
        self.pos as int
    }

    /// The cursor stays within the source.
    pub closed spec fn wf(self) -> bool {
        0 <= self.pos <= self.len && self.len == self.src().len()
    }

    pub proof fn lemma_wf_bounds(self)
        requires
            self.wf(),
        ensures
            0 <= self.at() <= self.src().len(),
    {
    }

    pub fn new(input: &'a String) -> (l: Lexer<'a>)
        ensures
            l.src() == input@,
            l.at() == 0,
            l.wf(),
    {
        let text = input.as_str();
        let n = text.unicode_len();
        Lexer { input: text, pos: 0, len: n }
    }

    /// Advances the cursor past the current character.
    fn advance(&mut self)
        requires
            old(self).wf(),
            old(self).at() < old(self).src().len(),
        ensures
            final(self).src() == old(self).src(),
            final(self).at() == old(self).at() + 1,
            final(self).wf(),
    {
        self.pos = self.pos + 1;
    }

    /// Advances the cursor past contiguous spaces.
    fn skip_whitespace(&mut self)
        requires
            old(self).wf(),
        ensures
            final(self).src() == old(self).src(),
            final(self).at() == skip_spaces(old(self).src(), old(self).at()),
            final(self).wf(),
    {
        while self.pos < self.len && self.input.get_char(self.pos) == ' '
            invariant
                self.wf(),
                self.src() == old(self).src(),
                skip_spaces(self.src(), self.at()) == skip_spaces(
                    old(self).src(),
                    old(self).at(),
                ),
            decreases self.src().len() - self.at(),
        {
            self.pos = self.pos + 1;
        }
    }

    /// Consumes the maximal run of digits at the cursor and returns it.
    fn integer(&mut self) -> (r: String)
        requires
            old(self).wf(),
            old(self).at() < old(self).src().len(),
            is_digit_char(old(self).src()[old(self).at()]),
        ensures
            final(self).src() == old(self).src(),
            final(self).at() == digit_run_end(old(self).src(), old(self).at()),
            r@ == old(self).src().subrange(old(self).at(), final(self).at()),
            final(self).wf(),
    {
        let start = self.pos;
        while self.pos < self.len && is_digit(self.input.get_char(self.pos))
            invariant
                self.wf(),
                self.src() == old(self).src(),
                start == old(self).pos,
                old(self).at() <= self.at(),
                digit_run_end(self.src(), self.at()) == digit_run_end(
                    old(self).src(),
                    old(self).at(),
                ),
            decreases self.src().len() - self.at(),
        {
            self.pos = self.pos + 1;
        }
        let sub = self.input.substring_char(start, self.pos);
        sub.to_owned()
    }

    /// Breaks the source apart into tokens, one per call: skips spaces, then
    /// returns the token starting at the cursor, an `EndOfInput` token once
    /// the source is exhausted, or a `LexError` naming the first character
    /// that belongs to no token.
    pub fn get_next_token(&mut self) -> (r: Result<Token, EvalError>)
        requires
            old(self).wf(),
        ensures
            final(self).src() == old(self).src(),
            final(self).wf(),
            old(self).at() <= final(self).at(),
            match spec_next(old(self).src(), old(self).at()) {
                Ok(st) => r matches Ok(t) && t.kind == st.kind && t.value@ == st.lexeme
                    && final(self).at() == st.pos,
                Err((c, p)) => r == Err::<Token, EvalError>(
                    EvalError::LexError { character: c, position: p as usize },
                ) && final(self).at() == p,
            },
    {
        proof {
            lemma_spec_next_ok(self.src(), self.at());
        }
        self.skip_whitespace();
        if self.pos == self.len {
            return Ok(Token::eof());
        }
        let c = self.input.get_char(self.pos);
        if is_digit(c) {
            let value = self.integer();
            Ok(Token { kind: TokenType::Integer, value })
        } else if c == '+' {
            let value = self.char_lexeme();
            self.advance();
            proof {
                assert(value@ =~= seq!['+']);
            }
            Ok(Token { kind: TokenType::Add, value })
        } else if c == '-' {
            let value = self.char_lexeme();
            self.advance();
            proof {
                assert(value@ =~= seq!['-']);
            }
            Ok(Token { kind: TokenType::Subtract, value })
        } else if c == '*' {
            let value = self.char_lexeme();
            self.advance();
            proof {
                assert(value@ =~= seq!['*']);
            }
            Ok(Token { kind: TokenType::Multiply, value })
        } else if c == '/' {
            let value = self.char_lexeme();
            self.advance();
            proof {
                assert(value@ =~= seq!['/']);
            }
            Ok(Token { kind: TokenType::Divide, value })
        } else if c == '(' {
            let value = self.char_lexeme();
            self.advance();
            proof {
                assert(value@ =~= seq!['(']);
            }
            Ok(Token { kind: TokenType::LParen, value })
        } else if c == ')' {
            let value = self.char_lexeme();
            self.advance();
            proof {
                assert(value@ =~= seq![')']);
            }
            Ok(Token { kind: TokenType::RParen, value })
        } else {
            Err(EvalError::LexError { character: c, position: self.pos })
        }
    }

    /// The one-character lexeme at the cursor: the literal substring of the
    /// source the token is scanned from.
    fn char_lexeme(&self) -> (r: String)
        requires
            self.wf(),
            self.at() < self.src().len(),
        ensures
            r@ == self.src().subrange(self.at(), self.at() + 1),
    {
        self.input.substring_char(self.pos, self.pos + 1).to_owned()
    }
}

/// Whether `c` is an ASCII decimal digit.
fn is_digit(c: char) -> (b: bool)
    ensures
        b == is_digit_char(c),
{
    let u = c as u32;
    48 <= u && u <= 57
}

} // verus!
