use vstd::prelude::*;

use crate::error::EvalError;
use crate::lexer::{
    ins_state, insert_space, lemma_eat_measure, lemma_ins_state_wf, lemma_spec_next_insert,
    lemma_spec_next_ok, lemma_spec_next_wrap, lemma_wrap_state_wf, lex_measure, skip_spaces,
    space_insertable, spec_next, wf_state, wrap_src, wrap_state, LexState, Lexer,
};
use crate::token::{
    digits_val, is_digit_char, lemma_digits_val_nonneg, lemma_digits_val_step,
    lemma_digits_val_take_bound, Token, TokenType,
};

verus! {

/// Division truncating toward zero, matching the host integer division for
/// every sign combination; `d` must be nonzero.
pub open spec fn trunc_div(x: int, d: int) -> int {
    if x == 0 {
        0
    } else if x > 0 && d > 0 {
        x / d
    } else if x < 0 && d < 0 {
        (x * -1) / (d * -1)
    } else if x < 0 {
        ((x * -1) / d) * -1
    } else {
        (x / (d * -1)) * -1
    }
}

/// Combines a running result with the next operand under `+`, reporting
/// overflow past the `i32` range as a failure.
pub open spec fn apply_add(a: int, b: int) -> Result<int, EvalError> {
    if a + b > i32::MAX || a + b < i32::MIN {
        Err(EvalError::IntegerOverflow)
    } else {
        Ok(a + b)
    }
}

/// Combines a running result with the next operand under `-`.
pub open spec fn apply_sub(a: int, b: int) -> Result<int, EvalError> {
    if a - b > i32::MAX || a - b < i32::MIN {
        Err(EvalError::IntegerOverflow)
    } else {
        Ok(a - b)
    }
}

/// Combines a running result with the next operand under `*`.
pub open spec fn apply_mul(a: int, b: int) -> Result<int, EvalError> {
    if a * b > i32::MAX || a * b < i32::MIN {
        Err(EvalError::IntegerOverflow)
    } else {
        Ok(a * b)
    }
}

/// Combines a running result with the next operand under `/`: dividing by
/// zero is a reportable failure, and the one truncating quotient outside the
/// `i32` range is reported as overflow.
pub open spec fn apply_div(a: int, b: int) -> Result<int, EvalError> {
    if b == 0 {
        Err(EvalError::DivisionByZero)
    } else if trunc_div(a, b) > i32::MAX || trunc_div(a, b) < i32::MIN {
        Err(EvalError::IntegerOverflow)
    } else {
        Ok(trunc_div(a, b))
    }
}

/// The lexical failure as the caller sees it.
pub open spec fn lex_err(c: char, p: int) -> EvalError {
    EvalError::LexError { character: c, position: p as usize }
}

/// The parser's expect-and-advance step: pull the token after the held one.
pub open spec fn sp_eat(s: Seq<char>, st: LexState) -> Result<LexState, (char, int)> {
    spec_next(s, st.pos)
}

/// The `factor` production: an `Integer` literal, or a parenthesized `expr`.
/// On success: the value and the state holding the first token after the
/// factor.
pub open spec fn sp_factor(s: Seq<char>, st: LexState) -> Result<(int, LexState), EvalError>
    decreases lex_measure(s, st), 0int
        when wf_state(s, st)
{
    if st.kind == TokenType::Integer {
        match sp_eat(s, st) {
            Err((c, p)) => Err(lex_err(c, p)),
            Ok(st2) => {
                let v = digits_val(st.lexeme);
                if v > i32::MAX {
                    Err(EvalError::IntegerOverflow)
                } else {
                    Ok((v, st2))
                }
            },
        }
    } else if st.kind == TokenType::LParen {
        match sp_eat(s, st) {
            Err((c, p)) => Err(lex_err(c, p)),
            Ok(st2) => {
                proof {
                    lemma_eat_measure(s, st);
                }
                match sp_expr(s, st2) {
                    Err(e) => Err(e),
                    Ok((v, st3)) => if st3.kind == TokenType::RParen {
                        match sp_eat(s, st3) {
                            Err((c, p)) => Err(lex_err(c, p)),
                            Ok(st4) => Ok((v, st4)),
                        }
                    } else {
                        Err(
                            EvalError::SyntaxError {
                                expected: TokenType::RParen,
                                found: st3.kind,
                            },
                        )
                    },
                }
            },
        }
    } else {
        Err(EvalError::SyntaxError { expected: TokenType::Integer, found: st.kind })
    }
}

/// The left fold of `term`: as long as the held token is `*` or `/`, consume
/// it, evaluate the next `factor`, and combine it with the running result.
/// The guard on the tail call restates that `factor` only consumes input;
/// `lemma_sp_factor_ok` shows it always holds.
pub open spec fn sp_term_rest(s: Seq<char>, acc: int, st: LexState) -> Result<
    (int, LexState),
    EvalError,
>
    decreases lex_measure(s, st), 1int
        when wf_state(s, st)
{
    if st.kind == TokenType::Multiply || st.kind == TokenType::Divide {
        match sp_eat(s, st) {
            Err((c, p)) => Err(lex_err(c, p)),
            Ok(st2) => {
                proof {
                    lemma_eat_measure(s, st);
                }
                match sp_factor(s, st2) {
                    Err(e) => Err(e),
                    Ok((f, st3)) => {
                        let combined = if st.kind == TokenType::Multiply {
                            apply_mul(acc, f)
                        } else {
                            apply_div(acc, f)
                        };
                        match combined {
                            Err(e) => Err(e),
                            Ok(acc2) => if lex_measure(s, st3) < lex_measure(s, st) && wf_state(
                                s,
                                st3,
                            ) {
                                sp_term_rest(s, acc2, st3)
                            } else {
                                arbitrary()
                            },
                        }
                    },
                }
            },
        }
    } else {
        Ok((acc, st))
    }
}

/// The `term` production: a `factor` followed by any number of `*`/`/`
/// factors, folded strictly left to right. The guard on the fold restates
/// that `factor` only consumes input; `lemma_sp_factor_ok` shows it always
/// holds.
pub open spec fn sp_term(s: Seq<char>, st: LexState) -> Result<(int, LexState), EvalError>
    decreases lex_measure(s, st), 2int
        when wf_state(s, st)
{
    match sp_factor(s, st) {
        Err(e) => Err(e),
        Ok((v, st2)) => if lex_measure(s, st2) <= lex_measure(s, st) && wf_state(s, st2) {
            sp_term_rest(s, v, st2)
        } else {
            arbitrary()
        },
    }
}

/// The left fold of `expr`: as long as the held token is `+` or `-`, consume
/// it, evaluate the next `term`, and combine it with the running result.
/// The guard on the tail call restates that `term` only consumes input;
/// `lemma_sp_term_ok` shows it always holds.
pub open spec fn sp_expr_rest(s: Seq<char>, acc: int, st: LexState) -> Result<
    (int, LexState),
    EvalError,
>
    decreases lex_measure(s, st), 3int
        when wf_state(s, st)
{
    if st.kind == TokenType::Add || st.kind == TokenType::Subtract {
        match sp_eat(s, st) {
            Err((c, p)) => Err(lex_err(c, p)),
            Ok(st2) => {
                proof {
                    lemma_eat_measure(s, st);
                }
                match sp_term(s, st2) {
                    Err(e) => Err(e),
                    Ok((t, st3)) => {
                        let combined = if st.kind == TokenType::Add {
                            apply_add(acc, t)
                        } else {
                            apply_sub(acc, t)
                        };
                        match combined {
                            Err(e) => Err(e),
                            Ok(acc2) => if lex_measure(s, st3) < lex_measure(s, st) && wf_state(
                                s,
                                st3,
                            ) {
                                sp_expr_rest(s, acc2, st3)
                            } else {
                                arbitrary()
                            },
                        }
                    },
                }
            },
        }
    } else {
        Ok((acc, st))
    }
}

/// The `expr` production: a `term` followed by any number of `+`/`-` terms,
/// folded strictly left to right. Precedence falls out structurally: `term`
/// is the atomic unit that `expr` combines. The guard on the fold restates
/// that `term` only consumes input; `lemma_sp_term_ok` shows it always holds.
pub open spec fn sp_expr(s: Seq<char>, st: LexState) -> Result<(int, LexState), EvalError>
    decreases lex_measure(s, st), 4int
        when wf_state(s, st)
{
    match sp_term(s, st) {
        Err(e) => Err(e),
        Ok((v, st2)) => if lex_measure(s, st2) <= lex_measure(s, st) && wf_state(s, st2) {
            sp_expr_rest(s, v, st2)
        } else {
            arbitrary()
        },
    }
}

/// On success, `factor` leaves a well-formed state, strictly consumes input,
/// and computes a value in the `i32` range.
pub proof fn lemma_sp_factor_ok(s: Seq<char>, st: LexState)
    requires
        wf_state(s, st),
    ensures
        match sp_factor(s, st) {
            Ok((v, st2)) => wf_state(s, st2) && lex_measure(s, st2) < lex_measure(s, st)
                && i32::MIN <= v <= i32::MAX,
            Err(e) => true,
        },
    decreases lex_measure(s, st), 0int,
{
    lemma_eat_measure(s, st);
    if st.kind == TokenType::Integer {
        lemma_digits_val_nonneg(st.lexeme);
    } else if st.kind == TokenType::LParen {
        if let Ok(st2) = sp_eat(s, st) {
            lemma_sp_expr_ok(s, st2);
            if let Ok((v, st3)) = sp_expr(s, st2) {
                if st3.kind == TokenType::RParen {
                    lemma_eat_measure(s, st3);
                }
            }
        }
    }
}

/// On success, the `*`/`/` fold leaves a well-formed state, never grows the
/// measure, and keeps the running result in the `i32` range.
pub proof fn lemma_sp_term_rest_ok(s: Seq<char>, acc: int, st: LexState)
    requires
        wf_state(s, st),
        i32::MIN <= acc <= i32::MAX,
    ensures
        match sp_term_rest(s, acc, st) {
            Ok((v, st2)) => wf_state(s, st2) && lex_measure(s, st2) <= lex_measure(s, st)
                && i32::MIN <= v <= i32::MAX,
            Err(e) => true,
        },
    decreases lex_measure(s, st), 1int,
{
    if st.kind == TokenType::Multiply || st.kind == TokenType::Divide {
        lemma_eat_measure(s, st);
        if let Ok(st2) = sp_eat(s, st) {
            lemma_sp_factor_ok(s, st2);
            if let Ok((f, st3)) = sp_factor(s, st2) {
                let combined = if st.kind == TokenType::Multiply {
                    apply_mul(acc, f)
                } else {
                    apply_div(acc, f)
                };
                if let Ok(acc2) = combined {
                    lemma_sp_term_rest_ok(s, acc2, st3);
                }
            }
        }
    }
}

/// On success, `term` leaves a well-formed state, strictly consumes input,
/// and computes a value in the `i32` range.
pub proof fn lemma_sp_term_ok(s: Seq<char>, st: LexState)
    requires
        wf_state(s, st),
    ensures
        match sp_term(s, st) {
            Ok((v, st2)) => wf_state(s, st2) && lex_measure(s, st2) < lex_measure(s, st)
                && i32::MIN <= v <= i32::MAX,
            Err(e) => true,
        },
    decreases lex_measure(s, st), 2int,
{
    lemma_sp_factor_ok(s, st);
    if let Ok((v, st2)) = sp_factor(s, st) {
        lemma_sp_term_rest_ok(s, v, st2);
    }
}

/// On success, the `+`/`-` fold leaves a well-formed state, never grows the
/// measure, and keeps the running result in the `i32` range.
pub proof fn lemma_sp_expr_rest_ok(s: Seq<char>, acc: int, st: LexState)
    requires
        wf_state(s, st),
        i32::MIN <= acc <= i32::MAX,
    ensures
        match sp_expr_rest(s, acc, st) {
            Ok((v, st2)) => wf_state(s, st2) && lex_measure(s, st2) <= lex_measure(s, st)
                && i32::MIN <= v <= i32::MAX,
            Err(e) => true,
        },
    decreases lex_measure(s, st), 3int,
{
    if st.kind == TokenType::Add || st.kind == TokenType::Subtract {
        lemma_eat_measure(s, st);
        if let Ok(st2) = sp_eat(s, st) {
            lemma_sp_term_ok(s, st2);
            if let Ok((t, st3)) = sp_term(s, st2) {
                let combined = if st.kind == TokenType::Add {
                    apply_add(acc, t)
                } else {
                    apply_sub(acc, t)
                };
                if let Ok(acc2) = combined {
                    lemma_sp_expr_rest_ok(s, acc2, st3);
                }
            }
        }
    }
}

/// On success, `expr` leaves a well-formed state, strictly consumes input,
/// and computes a value in the `i32` range.
pub proof fn lemma_sp_expr_ok(s: Seq<char>, st: LexState)
    requires
        wf_state(s, st),
    ensures
        match sp_expr(s, st) {
            Ok((v, st2)) => wf_state(s, st2) && lex_measure(s, st2) < lex_measure(s, st)
                && i32::MIN <= v <= i32::MAX,
            Err(e) => true,
        },
    decreases lex_measure(s, st), 4int,
{
    lemma_sp_term_ok(s, st);
    if let Ok((v, st2)) = sp_term(s, st) {
        lemma_sp_expr_rest_ok(s, v, st2);
    }
}

/// What evaluating a whole source string yields: pull the first token, drive
/// the top-level `expr`, then demand that nothing but `EndOfInput` remains.
pub open spec fn spec_evaluate(s: Seq<char>) -> Result<int, EvalError> {
    match spec_next(s, 0) {
        Err((c, p)) => Err(lex_err(c, p)),
        Ok(st0) => match sp_expr(s, st0) {
            Err(e) => Err(e),
            Ok((v, st1)) => if st1.kind == TokenType::EndOfInput {
                Ok(v)
            } else {
                Err(EvalError::SyntaxError { expected: TokenType::EndOfInput, found: st1.kind })
            },
        },
    }
}

proof fn lemma_sp_factor_wrap(s: Seq<char>, st: LexState)
    requires
        wf_state(s, st),
    ensures
        match sp_factor(s, st) {
            Ok((v, st2)) => sp_factor(wrap_src(s), wrap_state(s, st)) == Ok::<
                (int, LexState),
                EvalError,
            >((v, wrap_state(s, st2))),
            Err(e) => true,
        },
    decreases lex_measure(s, st), 0int,
{
    let w = wrap_src(s);
    let wst = wrap_state(s, st);
    lemma_wrap_state_wf(s, st);
    if st.kind == TokenType::Integer {
        lemma_spec_next_wrap(s, st.pos);
        if let Ok(st2) = sp_eat(s, st) {
            lemma_spec_next_ok(s, st.pos);
        }
    } else if st.kind == TokenType::LParen {
        lemma_spec_next_wrap(s, st.pos);
        if let Ok(st2) = sp_eat(s, st) {
            lemma_eat_measure(s, st);
            lemma_spec_next_ok(s, st.pos);
            lemma_wrap_state_wf(s, st2);
            lemma_sp_expr_wrap(s, st2);
            if let Ok((v, st3)) = sp_expr(s, st2) {
                lemma_sp_expr_ok(s, st2);
                if st3.kind == TokenType::RParen {
                    lemma_spec_next_wrap(s, st3.pos);
                    if let Ok(st4) = sp_eat(s, st3) {
                        lemma_spec_next_ok(s, st3.pos);
                    }
                }
            }
        }
    }
}

proof fn lemma_sp_term_rest_wrap(s: Seq<char>, acc: int, st: LexState)
    requires
        wf_state(s, st),
    ensures
        match sp_term_rest(s, acc, st) {
            Ok((v, st2)) => sp_term_rest(wrap_src(s), acc, wrap_state(s, st)) == Ok::<
                (int, LexState),
                EvalError,
            >((v, wrap_state(s, st2))),
            Err(e) => true,
        },
    decreases lex_measure(s, st), 1int,
{
    let w = wrap_src(s);
    let wst = wrap_state(s, st);
    lemma_wrap_state_wf(s, st);
    if st.kind == TokenType::Multiply || st.kind == TokenType::Divide {
        lemma_spec_next_wrap(s, st.pos);
        if let Ok(st2) = sp_eat(s, st) {
            lemma_eat_measure(s, st);
            lemma_eat_measure(w, wst);
            lemma_sp_factor_wrap(s, st2);
            lemma_sp_factor_ok(s, st2);
            lemma_sp_factor_ok(w, wrap_state(s, st2));
            if let Ok((f, st3)) = sp_factor(s, st2) {
                let combined = if st.kind == TokenType::Multiply {
                    apply_mul(acc, f)
                } else {
                    apply_div(acc, f)
                };
                if let Ok(acc2) = combined {
                    lemma_sp_term_rest_wrap(s, acc2, st3);
                }
            }
        }
    }
}

proof fn lemma_sp_term_wrap(s: Seq<char>, st: LexState)
    requires
        wf_state(s, st),
    ensures
        match sp_term(s, st) {
            Ok((v, st2)) => sp_term(wrap_src(s), wrap_state(s, st)) == Ok::<
                (int, LexState),
                EvalError,
            >((v, wrap_state(s, st2))),
            Err(e) => true,
        },
    decreases lex_measure(s, st), 2int,
{
    let w = wrap_src(s);
    let wst = wrap_state(s, st);
    lemma_wrap_state_wf(s, st);
    lemma_sp_factor_wrap(s, st);
    lemma_sp_factor_ok(s, st);
    lemma_sp_factor_ok(w, wst);
    if let Ok((v, st2)) = sp_factor(s, st) {
        lemma_sp_term_rest_wrap(s, v, st2);
    }
}

proof fn lemma_sp_expr_rest_wrap(s: Seq<char>, acc: int, st: LexState)
    requires
        wf_state(s, st),
    ensures
        match sp_expr_rest(s, acc, st) {
            Ok((v, st2)) => sp_expr_rest(wrap_src(s), acc, wrap_state(s, st)) == Ok::<
                (int, LexState),
                EvalError,
            >((v, wrap_state(s, st2))),
            Err(e) => true,
        },
    decreases lex_measure(s, st), 3int,
{
    let w = wrap_src(s);
    let wst = wrap_state(s, st);
    lemma_wrap_state_wf(s, st);
    if st.kind == TokenType::Add || st.kind == TokenType::Subtract {
        lemma_spec_next_wrap(s, st.pos);
        if let Ok(st2) = sp_eat(s, st) {
            lemma_eat_measure(s, st);
            lemma_eat_measure(w, wst);
            lemma_sp_term_wrap(s, st2);
            lemma_sp_term_ok(s, st2);
            lemma_sp_term_ok(w, wrap_state(s, st2));
            if let Ok((t, st3)) = sp_term(s, st2) {
                let combined = if st.kind == TokenType::Add {
                    apply_add(acc, t)
                } else {
                    apply_sub(acc, t)
                };
                if let Ok(acc2) = combined {
                    lemma_sp_expr_rest_wrap(s, acc2, st3);
                }
            }
        }
    }
}

proof fn lemma_sp_expr_wrap(s: Seq<char>, st: LexState)
    requires
        wf_state(s, st),
    ensures
        match sp_expr(s, st) {
            Ok((v, st2)) => sp_expr(wrap_src(s), wrap_state(s, st)) == Ok::<
                (int, LexState),
                EvalError,
            >((v, wrap_state(s, st2))),
            Err(e) => true,
        },
    decreases lex_measure(s, st), 4int,
{
    let w = wrap_src(s);
    let wst = wrap_state(s, st);
    lemma_wrap_state_wf(s, st);
    lemma_sp_term_wrap(s, st);
    lemma_sp_term_ok(s, st);
    lemma_sp_term_ok(w, wst);
    if let Ok((v, st2)) = sp_term(s, st) {
        lemma_sp_expr_rest_wrap(s, v, st2);
    }
}

/// Redundant parentheses are transparent: a source that evaluates
/// successfully keeps exactly its value when wrapped in one more pair of
/// parentheses, and arbitrarily deep redundant nesting follows by applying
/// this fact repeatedly.
pub proof fn lemma_redundant_parens(s: Seq<char>)
    requires
        spec_evaluate(s) matches Ok(_),
    ensures
        spec_evaluate(wrap_src(s)) == spec_evaluate(s),
{
    let w = wrap_src(s);
    lemma_spec_next_ok(s, 0);
    lemma_spec_next_wrap(s, 0);
    let st0 = spec_next(s, 0)->Ok_0;
    assert(w[0] == '(');
    assert(skip_spaces(w, 0) == 0);
    let st_lp = LexState { kind: TokenType::LParen, lexeme: seq!['('], pos: 1 };
    assert(spec_next(w, 0)->Ok_0 =~= st_lp);
    assert(wf_state(w, st_lp));
    let v = sp_expr(s, st0)->Ok_0.0;
    let st1 = sp_expr(s, st0)->Ok_0.1;
    lemma_sp_expr_ok(s, st0);
    lemma_sp_expr_wrap(s, st0);
    let st_rp = wrap_state(s, st1);
    let st_eoi = LexState {
        kind: TokenType::EndOfInput,
        lexeme: Seq::empty(),
        pos: s.len() as int + 2,
    };
    assert(skip_spaces(w, s.len() as int + 2) == s.len() + 2);
    assert(spec_next(w, s.len() as int + 2)->Ok_0 =~= st_eoi);
    lemma_eat_measure(w, st_lp);
    assert(sp_factor(w, st_lp) == Ok::<(int, LexState), EvalError>((v, st_eoi)));
    lemma_sp_factor_ok(w, st_lp);
    assert(sp_term_rest(w, v, st_eoi) == Ok::<(int, LexState), EvalError>((v, st_eoi)));
    assert(sp_term(w, st_lp) == Ok::<(int, LexState), EvalError>((v, st_eoi)));
    lemma_sp_term_ok(w, st_lp);
    assert(sp_expr_rest(w, v, st_eoi) == Ok::<(int, LexState), EvalError>((v, st_eoi)));
    assert(sp_expr(w, st_lp) == Ok::<(int, LexState), EvalError>((v, st_eoi)));
}

proof fn lemma_sp_factor_insert(s: Seq<char>, p: int, st: LexState)
    requires
        wf_state(s, st),
        space_insertable(s, p),
    ensures
        match sp_factor(s, st) {
            Ok((v, st2)) => sp_factor(insert_space(s, p), ins_state(s, p, st)) == Ok::<
                (int, LexState),
                EvalError,
            >((v, ins_state(s, p, st2))),
            Err(e) => true,
        },
    decreases lex_measure(s, st), 0int,
{
    let w = insert_space(s, p);
    let wst = ins_state(s, p, st);
    lemma_ins_state_wf(s, p, st);
    if st.kind == TokenType::Integer {
        lemma_spec_next_insert(s, p, st.pos);
        if let Ok(st2) = sp_eat(s, st) {
            lemma_spec_next_ok(s, st.pos);
        }
    } else if st.kind == TokenType::LParen {
        lemma_spec_next_insert(s, p, st.pos);
        if let Ok(st2) = sp_eat(s, st) {
            lemma_eat_measure(s, st);
            lemma_spec_next_ok(s, st.pos);
            lemma_ins_state_wf(s, p, st2);
            lemma_sp_expr_insert(s, p, st2);
            if let Ok((v, st3)) = sp_expr(s, st2) {
                lemma_sp_expr_ok(s, st2);
                if st3.kind == TokenType::RParen {
                    lemma_spec_next_insert(s, p, st3.pos);
                    if let Ok(st4) = sp_eat(s, st3) {
                        lemma_spec_next_ok(s, st3.pos);
                    }
                }
            }
        }
    }
}

proof fn lemma_sp_term_rest_insert(s: Seq<char>, p: int, acc: int, st: LexState)
    requires
        wf_state(s, st),
        space_insertable(s, p),
    ensures
        match sp_term_rest(s, acc, st) {
            Ok((v, st2)) => sp_term_rest(insert_space(s, p), acc, ins_state(s, p, st)) == Ok::<
                (int, LexState),
                EvalError,
            >((v, ins_state(s, p, st2))),
            Err(e) => true,
        },
    decreases lex_measure(s, st), 1int,
{
    let w = insert_space(s, p);
    let wst = ins_state(s, p, st);
    lemma_ins_state_wf(s, p, st);
    if st.kind == TokenType::Multiply || st.kind == TokenType::Divide {
        lemma_spec_next_insert(s, p, st.pos);
        if let Ok(st2) = sp_eat(s, st) {
            lemma_eat_measure(s, st);
            lemma_eat_measure(w, wst);
            lemma_sp_factor_insert(s, p, st2);
            lemma_sp_factor_ok(s, st2);
            lemma_sp_factor_ok(w, ins_state(s, p, st2));
            if let Ok((f, st3)) = sp_factor(s, st2) {
                let combined = if st.kind == TokenType::Multiply {
                    apply_mul(acc, f)
                } else {
                    apply_div(acc, f)
                };
                if let Ok(acc2) = combined {
                    lemma_sp_term_rest_insert(s, p, acc2, st3);
                }
            }
        }
    }
}

proof fn lemma_sp_term_insert(s: Seq<char>, p: int, st: LexState)
    requires
        wf_state(s, st),
        space_insertable(s, p),
    ensures
        match sp_term(s, st) {
            Ok((v, st2)) => sp_term(insert_space(s, p), ins_state(s, p, st)) == Ok::<
                (int, LexState),
                EvalError,
            >((v, ins_state(s, p, st2))),
            Err(e) => true,
        },
    decreases lex_measure(s, st), 2int,
{
    let w = insert_space(s, p);
    let wst = ins_state(s, p, st);
    lemma_ins_state_wf(s, p, st);
    lemma_sp_factor_insert(s, p, st);
    lemma_sp_factor_ok(s, st);
    lemma_sp_factor_ok(w, wst);
    if let Ok((v, st2)) = sp_factor(s, st) {
        lemma_sp_term_rest_insert(s, p, v, st2);
    }
}

proof fn lemma_sp_expr_rest_insert(s: Seq<char>, p: int, acc: int, st: LexState)
    requires
        wf_state(s, st),
        space_insertable(s, p),
    ensures
        match sp_expr_rest(s, acc, st) {
            Ok((v, st2)) => sp_expr_rest(insert_space(s, p), acc, ins_state(s, p, st)) == Ok::<
                (int, LexState),
                EvalError,
            >((v, ins_state(s, p, st2))),
            Err(e) => true,
        },
    decreases lex_measure(s, st), 3int,
{
    let w = insert_space(s, p);
    let wst = ins_state(s, p, st);
    lemma_ins_state_wf(s, p, st);
    if st.kind == TokenType::Add || st.kind == TokenType::Subtract {
        lemma_spec_next_insert(s, p, st.pos);
        if let Ok(st2) = sp_eat(s, st) {
            lemma_eat_measure(s, st);
            lemma_eat_measure(w, wst);
            lemma_sp_term_insert(s, p, st2);
            lemma_sp_term_ok(s, st2);
            lemma_sp_term_ok(w, ins_state(s, p, st2));
            if let Ok((t, st3)) = sp_term(s, st2) {
                let combined = if st.kind == TokenType::Add {
                    apply_add(acc, t)
                } else {
                    apply_sub(acc, t)
                };
                if let Ok(acc2) = combined {
                    lemma_sp_expr_rest_insert(s, p, acc2, st3);
                }
            }
        }
    }
}

proof fn lemma_sp_expr_insert(s: Seq<char>, p: int, st: LexState)
    requires
        wf_state(s, st),
        space_insertable(s, p),
    ensures
        match sp_expr(s, st) {
            Ok((v, st2)) => sp_expr(insert_space(s, p), ins_state(s, p, st)) == Ok::<
                (int, LexState),
                EvalError,
            >((v, ins_state(s, p, st2))),
            Err(e) => true,
        },
    decreases lex_measure(s, st), 4int,
{
    let w = insert_space(s, p);
    let wst = ins_state(s, p, st);
    lemma_ins_state_wf(s, p, st);
    lemma_sp_term_insert(s, p, st);
    lemma_sp_term_ok(s, st);
    lemma_sp_term_ok(w, wst);
    if let Ok((v, st2)) = sp_term(s, st) {
        lemma_sp_expr_rest_insert(s, p, v, st2);
    }
}

/// Whitespace between tokens is insignificant: inserting a space anywhere
/// except inside an integer literal leaves a successful evaluation unchanged,
/// and so, applied repeatedly, does any amount of such padding.
pub proof fn lemma_space_insertion(s: Seq<char>, p: int)
    requires
        spec_evaluate(s) matches Ok(_),
        space_insertable(s, p),
    ensures
        spec_evaluate(insert_space(s, p)) == spec_evaluate(s),
{
    let w = insert_space(s, p);
    lemma_spec_next_ok(s, 0);
    lemma_spec_next_insert(s, p, 0);
    let st0 = spec_next(s, 0)->Ok_0;
    lemma_sp_expr_ok(s, st0);
    lemma_sp_expr_insert(s, p, st0);
}

/// Parses a non-empty run of ASCII digits as a base-10 `i32`, reporting a
/// run worth more than `i32::MAX` as an overflow failure.
fn parse_digits(digits: &String) -> (r: Result<i32, EvalError>)
    requires
        digits@.len() > 0,
        forall|i: int| 0 <= i < digits@.len() ==> is_digit_char(#[trigger] digits@[i]),
    ensures
        digits_val(digits@) > i32::MAX ==> r == Err::<i32, EvalError>(EvalError::IntegerOverflow),
        digits_val(digits@) <= i32::MAX ==> (r matches Ok(v) && v == digits_val(digits@)),
{
    let n = digits.as_str().unicode_len();
    let mut acc: i32 = 0;
    let mut i: usize = 0;
    proof {
        lemma_digits_val_nonneg(digits@);
    }
    while i < n
        invariant
            0 <= i <= n,
            n == digits@.len(),
            forall|k: int| 0 <= k < digits@.len() ==> is_digit_char(#[trigger] digits@[k]),
            0 <= acc,
            acc == digits_val(digits@.take(i as int)),
        decreases n - i,
    {
        let c = digits.as_str().get_char(i);
        let d = (c as u32 - 48) as i32;
        proof {
            lemma_digits_val_step(digits@, i as int);
            lemma_digits_val_take_bound(digits@, i as int + 1);
        }
        let stepped = match acc.checked_mul(10) {
            Some(m) => m.checked_add(d),
            None => None,
        };
        acc = match stepped {
            Some(v) => v,
            None => {
                return Err(EvalError::IntegerOverflow);
            },
        };
        i = i + 1;
    }
    proof {
        assert(digits@.take(n as int) =~= digits@);
    }
    Ok(acc)
}

/// The recursive-descent parser and evaluator: it holds one token of
/// lookahead and the lexer it pulls from, and computes the value of the
/// grammar it consumes without building a syntax tree.
pub struct Interpreter<'a> {
    current_token: Token,
    lexer: Lexer<'a>,
}

impl<'a> Interpreter<'a> {
    /// The source text the underlying lexer scans.
    pub closed spec fn src(self) -> Seq<char> {
        self.lexer.src()
    }

    /// The parser's position in the token stream: the held lookahead token
    /// and the cursor position right after it.
    pub closed spec fn st(self) -> LexState {
        LexState {
            kind: self.current_token.kind,
            lexeme: self.current_token.value@,
            pos: self.lexer.at(),
        }
    }

    /// A parser whose lexer and held token can be trusted.
    pub closed spec fn wf(self) -> bool {
        self.lexer.wf() && wf_state(self.src(), self.st())
    }

    /// Binds a parser to `lexer` and pulls the first lookahead token,
    /// surfacing a lexical fault in the first token as the caller's error.
    pub fn new(lexer: Lexer<'a>) -> (r: Result<Interpreter<'a>, EvalError>)
        requires
            lexer.wf(),
        ensures
            match spec_next(lexer.src(), lexer.at()) {
                Ok(st) => r matches Ok(p) && p.wf() && p.src() == lexer.src() && p.st() == st,
                Err((c, p)) => r == Err::<Interpreter<'a>, EvalError>(lex_err(c, p)),
            },
    {
        proof {
            lexer.lemma_wf_bounds();
            lemma_spec_next_ok(lexer.src(), lexer.at());
        }
        let mut lex = lexer;
        match lex.get_next_token() {
            Ok(tok) => Ok(Interpreter { current_token: tok, lexer: lex }),
            Err(e) => Err(e),
        }
    }

    /// Compares the held token's kind with the expected one; on a match,
    /// consumes it, pulls the next token into the lookahead slot, and hands
    /// the eaten token back; otherwise reports what was expected and found.
    fn eat(&mut self, t: TokenType) -> (r: Result<Token, EvalError>)
        requires
            old(self).wf(),
        ensures
            final(self).src() == old(self).src(),
            final(self).wf(),
            if old(self).st().kind == t {
                match sp_eat(old(self).src(), old(self).st()) {
                    Ok(st2) => r matches Ok(tok) && tok.kind == old(self).st().kind
                        && tok.value@ == old(self).st().lexeme && final(self).st() == st2,
                    Err((c, p)) => r == Err::<Token, EvalError>(lex_err(c, p)),
                }
            } else {
                r == Err::<Token, EvalError>(
                    EvalError::SyntaxError { expected: t, found: old(self).st().kind },
                ) && *final(self) == *old(self)
            },
    {
        if self.current_token.kind == t {
            proof {
                self.lexer.lemma_wf_bounds();
            }
            match self.lexer.get_next_token() {
                Ok(tok) => {
                    proof {
                        lemma_spec_next_ok(old(self).src(), old(self).st().pos);
                    }
                    let mut prev = tok;
                    core::mem::swap(&mut self.current_token, &mut prev);
                    Ok(prev)
                },
                Err(e) => Err(e),
            }
        } else {
            Err(EvalError::SyntaxError { expected: t, found: self.current_token.kind })
        }
    }

    /// The `factor` production: consumes an `Integer` literal, or a
    /// parenthesized `expr` together with both parentheses, and returns its
    /// value.
    fn factor(&mut self) -> (r: Result<i32, EvalError>)
        requires
            old(self).wf(),
        ensures
            final(self).src() == old(self).src(),
            final(self).wf(),
            match sp_factor(old(self).src(), old(self).st()) {
                Ok((v, st2)) => r matches Ok(x) && x == v && final(self).st() == st2,
                Err(e) => r == Err::<i32, EvalError>(e),
            },
        decreases lex_measure(old(self).src(), old(self).st()), 0int,
    {
        let ghost s = self.src();
        let ghost st0 = self.st();
        proof {
            lemma_eat_measure(s, st0);
        }
        if self.current_token.kind == TokenType::Integer {
            let tok = match self.eat(TokenType::Integer) {
                Ok(t) => t,
                Err(e) => {
                    return Err(e);
                },
            };
            parse_digits(&tok.value)
        } else if self.current_token.kind == TokenType::LParen {
            match self.eat(TokenType::LParen) {
                Ok(_) => (),
                Err(e) => {
                    return Err(e);
                },
            };
            let v = match self.expr() {
                Ok(v) => v,
                Err(e) => {
                    return Err(e);
                },
            };
            if self.current_token.kind == TokenType::RParen {
                match self.eat(TokenType::RParen) {
                    Ok(_) => Ok(v),
                    Err(e) => Err(e),
                }
            } else {
                Err(
                    EvalError::SyntaxError {
                        expected: TokenType::RParen,
                        found: self.current_token.kind,
                    },
                )
            }
        } else {
            Err(
                EvalError::SyntaxError {
                    expected: TokenType::Integer,
                    found: self.current_token.kind,
                },
            )
        }
    }

    /// The `term` production: a `factor` followed by any number of `*`/`/`
    /// factors, folded strictly left to right as it is consumed.
    fn term(&mut self) -> (r: Result<i32, EvalError>)
        requires
            old(self).wf(),
        ensures
            final(self).src() == old(self).src(),
            final(self).wf(),
            match sp_term(old(self).src(), old(self).st()) {
                Ok((v, st2)) => r matches Ok(x) && x == v && final(self).st() == st2,
                Err(e) => r == Err::<i32, EvalError>(e),
            },
        decreases lex_measure(old(self).src(), old(self).st()), 2int,
    {
        let ghost s = self.src();
        let ghost st0 = self.st();
        proof {
            lemma_sp_factor_ok(s, st0);
        }
        let mut result = match self.factor() {
            Ok(v) => v,
            Err(e) => {
                return Err(e);
            },
        };
        while self.current_token.kind == TokenType::Multiply || self.current_token.kind
            == TokenType::Divide
            invariant
                self.wf(),
                s == self.src(),
                s == old(self).src(),
                st0 == old(self).st(),
                wf_state(s, st0),
                lex_measure(s, self.st()) < lex_measure(s, st0),
                sp_term(s, st0) == sp_term_rest(s, result as int, self.st()),
            decreases lex_measure(s, self.st()),
        {
            let ghost st_loop = self.st();
            proof {
                lemma_eat_measure(s, st_loop);
            }
            let op = self.current_token.kind;
            match self.eat(op) {
                Ok(_) => (),
                Err(e) => {
                    return Err(e);
                },
            };
            proof {
                lemma_sp_factor_ok(s, self.st());
            }
            let f = match self.factor() {
                Ok(v) => v,
                Err(e) => {
                    return Err(e);
                },
            };
            if op == TokenType::Multiply {
                result = match result.checked_mul(f) {
                    Some(v) => v,
                    None => {
                        return Err(EvalError::IntegerOverflow);
                    },
                };
            } else {
                if f == 0 {
                    return Err(EvalError::DivisionByZero);
                }
                result = match result.checked_div(f) {
                    Some(v) => v,
                    None => {
                        return Err(EvalError::IntegerOverflow);
                    },
                };
            }
        }
        Ok(result)
    }

    /// The `expr` production and the parser's entry point: a `term` followed
    /// by any number of `+`/`-` terms, folded strictly left to right as it is
    /// consumed.
    pub fn expr(&mut self) -> (r: Result<i32, EvalError>)
        requires
            old(self).wf(),
        ensures
            final(self).src() == old(self).src(),
            final(self).wf(),
            match sp_expr(old(self).src(), old(self).st()) {
                Ok((v, st2)) => r matches Ok(x) && x == v && final(self).st() == st2,
                Err(e) => r == Err::<i32, EvalError>(e),
            },
        decreases lex_measure(old(self).src(), old(self).st()), 4int,
    {
        let ghost s = self.src();
        let ghost st0 = self.st();
        proof {
            lemma_sp_term_ok(s, st0);
        }
        let mut result = match self.term() {
            Ok(v) => v,
            Err(e) => {
                return Err(e);
            },
        };
        while self.current_token.kind == TokenType::Add || self.current_token.kind
            == TokenType::Subtract
            invariant
                self.wf(),
                s == self.src(),
                s == old(self).src(),
                st0 == old(self).st(),
                wf_state(s, st0),
                lex_measure(s, self.st()) < lex_measure(s, st0),
                sp_expr(s, st0) == sp_expr_rest(s, result as int, self.st()),
            decreases lex_measure(s, self.st()),
        {
            let ghost st_loop = self.st();
            proof {
                lemma_eat_measure(s, st_loop);
            }
            let op = self.current_token.kind;
            match self.eat(op) {
                Ok(_) => (),
                Err(e) => {
                    return Err(e);
                },
            };
            proof {
                lemma_sp_term_ok(s, self.st());
            }
            let t = match self.term() {
                Ok(v) => v,
                Err(e) => {
                    return Err(e);
                },
            };
            if op == TokenType::Add {
                result = match result.checked_add(t) {
                    Some(v) => v,
                    None => {
                        return Err(EvalError::IntegerOverflow);
                    },
                };
            } else {
                result = match result.checked_sub(t) {
                    Some(v) => v,
                    None => {
                        return Err(EvalError::IntegerOverflow);
                    },
                };
            }
        }
        Ok(result)
    }
}

/// Evaluates a whole source string: builds the lexer and parser internally,
/// drives the top-level `expr` to completion, and fails if any token other
/// than `EndOfInput` remains.
///
/// Evaluation is pure: the contract pins the result to `spec_evaluate` of the
/// source text alone, so evaluating the same string any number of times
/// yields the same result.
pub fn evaluate(source: &str) -> (r: Result<i32, EvalError>)
    ensures
        match spec_evaluate(source@) {
            Ok(v) => r matches Ok(x) && x == v,
            Err(e) => r == Err::<i32, EvalError>(e),
        },
{
    let text = source.to_owned();
    let lexer = Lexer::new(&text);
    let mut parser = match Interpreter::new(lexer) {
        Ok(p) => p,
        Err(e) => {
            return Err(e);
        },
    };
    proof {
        lemma_sp_expr_ok(source@, parser.st());
    }
    let v = match parser.expr() {
        Ok(v) => v,
        Err(e) => {
            return Err(e);
        },
    };
    if parser.current_token.kind == TokenType::EndOfInput {
        Ok(v)
    } else {
        Err(
            EvalError::SyntaxError {
                expected: TokenType::EndOfInput,
                found: parser.current_token.kind,
            },
        )
    }
}

} // verus!
