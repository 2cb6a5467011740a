//! The parser: recursive descent with one-token lookahead over the token
//! stream, following the grammar
//!
//! ```text
//! expression := term ( ('+' | '-') term )*          left-associative
//! term       := primary ( ('*' | '/') primary )*    left-associative
//! primary    := ['-'] ( Number | '(' expression ')' )
//! ```
//!
//! Parsing builds an expression tree ([`Expr`]); numeric literals stay as
//! their exact source text, so evaluating the tree (a floating-point
//! computation) is the caller's concern.
//!
//! The grammar's meaning is pinned down by a fuel-indexed specification
//! ([`s_expression`] and friends). Fuel only forces termination of the
//! specification: whenever two fuel values are enough for an answer, the
//! answers agree, so the fuel-free functions [`p_expression`] and friends are
//! well defined and the outcome of a parse is a function of the source text
//! alone.

use crate::lexer::{lemma_token_end_bounds, spec_token, spec_token_end, syntax_error_text, Lexer};
use crate::token::{Token, TokenType, TokenV};
use vstd::prelude::*;

verus! {

/// A binary arithmetic operator.
#[derive(Clone, Copy, Debug, PartialEq, Eq, Structural)]
pub enum BinOp {
    Add,
    Subtract,
    Multiply,
    Divide,
}

/// The expression tree a parse produces. A `Literal` keeps the exact source
/// text of the numeric literal. `Empty` records the grammar's permissive
/// fallback: where neither a number nor a group follows, the parser yields an
/// empty operand (standing for zero) and pushes the token back.
#[derive(Debug, PartialEq)]
pub enum Expr {
    Literal(String),
    Negate(Box<Expr>),
    Binary(BinOp, Box<Expr>, Box<Expr>),
    Empty,
}

/// Mathematical model of an expression tree, with literal text as a sequence
/// of characters.
pub enum ExprV {
    Literal(Seq<char>),
    Negate(Box<ExprV>),
    Binary(BinOp, Box<ExprV>, Box<ExprV>),
    Empty,
}

/// The model of an expression tree: the same tree with each literal's text
/// taken as a sequence of characters.
pub open spec fn expr_view(e: Expr) -> ExprV
    decreases e,
{
    match e {
        Expr::Literal(text) => ExprV::Literal(text@),
        Expr::Negate(inner) => ExprV::Negate(Box::new(expr_view(*inner))),
        Expr::Binary(op, left, right) => ExprV::Binary(
            op,
            Box::new(expr_view(*left)),
            Box::new(expr_view(*right)),
        ),
        Expr::Empty => ExprV::Empty,
    }
}

impl View for Expr {
    type V = ExprV;

    open spec fn view(&self) -> ExprV {
        expr_view(*self)
    }
}

/// An error that aborts a parse: either a tokenizer failure that surfaced
/// while requesting the next token, or an opened group that is not followed
/// by a matching closing parenthesis.
#[derive(Debug, Clone, PartialEq)]
pub enum ParseError {
    TokenizerFailure(&'static str),
    UnbalancedParens,
}

/// Mathematical model of a parse error.
pub enum ParseErrorV {
    Lex(Seq<char>),
    Unbalanced,
}

impl View for ParseError {
    type V = ParseErrorV;

    open spec fn view(&self) -> ParseErrorV {
        match self {
            ParseError::TokenizerFailure(m) => ParseErrorV::Lex(m@),
            ParseError::UnbalancedParens => ParseErrorV::Unbalanced,
        }
    }
}

/// Mathematical model of the parser's state: the source cursor of its
/// tokenizer, and the lookahead buffer holding at most one pushed-back token.
#[verifier::ext_equal]
pub struct PStateV {
    pub text: Seq<char>,
    pub pos: nat,
    pub la: Option<TokenV>,
}

/// The parser state's invariant: the cursor never passes the end of the text.
pub open spec fn state_wf(st: PStateV) -> bool {
    st.pos <= st.text.len()
}

/// The parse state over a source text before any token has been requested.
pub open spec fn init_state(text: Seq<char>) -> PStateV {
    PStateV { text, pos: 0, la: None }
}

/// How much input a state still carries: the measure that shrinks as the
/// parser consumes tokens. Characters not yet read count twice, so that
/// consuming even a one-character token outweighs buffering it back; a
/// buffered token counts once, except a buffered end marker, which carries no
/// input at all (scanning it may consume nothing).
pub open spec fn remaining(st: PStateV) -> int {
    2 * (st.text.len() - st.pos) + (match st.la {
        Some(t) => if t is End {
            0int
        } else {
            1int
        },
        None => 0int,
    })
}

/// Requesting one token: the pushed-back token if one is buffered, otherwise
/// the token the tokenizer scans at the cursor.
pub open spec fn s_get(st: PStateV) -> (Result<TokenV, ()>, PStateV) {
    match st.la {
        Some(t) => (Ok(t), PStateV { text: st.text, pos: st.pos, la: None }),
        None => (
            spec_token(st.text, st.pos),
            PStateV { text: st.text, pos: spec_token_end(st.text, st.pos), la: None },
        ),
    }
}

/// Pushing one token back for the next request.
pub open spec fn s_back(st: PStateV, t: TokenV) -> PStateV {
    PStateV { text: st.text, pos: st.pos, la: Some(t) }
}

/// Wraps an expression in a negation if the unary-minus flag was set.
pub open spec fn negate_if(neg: bool, e: ExprV) -> ExprV {
    if neg {
        ExprV::Negate(Box::new(e))
    } else {
        e
    }
}

/// One step of the `expression` production with `fuel` steps allowed:
/// a `term`, then the `( ('+' | '-') term )*` tail.
pub open spec fn s_expression(st: PStateV, fuel: nat) -> Option<
    Result<(ExprV, PStateV), ParseErrorV>,
>
    decreases fuel,
{
    if fuel == 0 {
        None
    } else {
        match s_term(st, (fuel - 1) as nat) {
            None => None,
            Some(Err(e)) => Some(Err(e)),
            Some(Ok((e0, st1))) => s_expr_rest(e0, st1, (fuel - 1) as nat),
        }
    }
}

/// The `( ('+' | '-') term )*` tail of an `expression`, accumulating into
/// `acc`: any other token is pushed back and ends the production.
pub open spec fn s_expr_rest(acc: ExprV, st: PStateV, fuel: nat) -> Option<
    Result<(ExprV, PStateV), ParseErrorV>,
>
    decreases fuel,
{
    if fuel == 0 {
        None
    } else {
        let (r, st1) = s_get(st);
        match r {
            Err(e) => Some(Err(ParseErrorV::Lex(syntax_error_text()))),
            Ok(t) => if t is Add || t is Sub {
                match s_term(st1, (fuel - 1) as nat) {
                    None => None,
                    Some(Err(e)) => Some(Err(e)),
                    Some(Ok((e2, st2))) => {
                        let op = if t is Add {
                            BinOp::Add
                        } else {
                            BinOp::Subtract
                        };
                        s_expr_rest(
                            ExprV::Binary(op, Box::new(acc), Box::new(e2)),
                            st2,
                            (fuel - 1) as nat,
                        )
                    },
                }
            } else {
                Some(Ok((acc, s_back(st1, t))))
            },
        }
    }
}

/// One step of the `term` production with `fuel` steps allowed: a `primary`,
/// then the `( ('*' | '/') primary )*` tail.
pub open spec fn s_term(st: PStateV, fuel: nat) -> Option<Result<(ExprV, PStateV), ParseErrorV>>
    decreases fuel,
{
    if fuel == 0 {
        None
    } else {
        match s_primary(st, (fuel - 1) as nat) {
            None => None,
            Some(Err(e)) => Some(Err(e)),
            Some(Ok((e0, st1))) => s_term_rest(e0, st1, (fuel - 1) as nat),
        }
    }
}

/// The `( ('*' | '/') primary )*` tail of a `term`, accumulating into `acc`.
pub open spec fn s_term_rest(acc: ExprV, st: PStateV, fuel: nat) -> Option<
    Result<(ExprV, PStateV), ParseErrorV>,
>
    decreases fuel,
{
    if fuel == 0 {
        None
    } else {
        let (r, st1) = s_get(st);
        match r {
            Err(e) => Some(Err(ParseErrorV::Lex(syntax_error_text()))),
            Ok(t) => if t is Mul || t is Div {
                match s_primary(st1, (fuel - 1) as nat) {
                    None => None,
                    Some(Err(e)) => Some(Err(e)),
                    Some(Ok((e2, st2))) => {
                        let op = if t is Mul {
                            BinOp::Multiply
                        } else {
                            BinOp::Divide
                        };
                        s_term_rest(
                            ExprV::Binary(op, Box::new(acc), Box::new(e2)),
                            st2,
                            (fuel - 1) as nat,
                        )
                    },
                }
            } else {
                Some(Ok((acc, s_back(st1, t))))
            },
        }
    }
}

/// The `primary` production with `fuel` steps allowed: an optional unary
/// minus, then a number, a parenthesized `expression` that must be followed
/// by a matching `)`, or — permissively — an empty operand with the token
/// pushed back.
pub open spec fn s_primary(st: PStateV, fuel: nat) -> Option<Result<(ExprV, PStateV), ParseErrorV>>
    decreases fuel,
{
    if fuel == 0 {
        None
    } else {
        let (r1, st1) = s_get(st);
        match r1 {
            Err(e) => Some(Err(ParseErrorV::Lex(syntax_error_text()))),
            Ok(t1) => {
                let neg = t1 is Sub;
                let st2 = if neg {
                    st1
                } else {
                    s_back(st1, t1)
                };
                let (r2, st3) = s_get(st2);
                match r2 {
                    Err(e) => Some(Err(ParseErrorV::Lex(syntax_error_text()))),
                    Ok(t2) => match t2 {
                        TokenV::Number(text) => Some(
                            Ok((negate_if(neg, ExprV::Literal(text)), st3)),
                        ),
                        TokenV::LeftParen => match s_expression(st3, (fuel - 1) as nat) {
                            None => None,
                            Some(Err(e)) => Some(Err(e)),
                            Some(Ok((e0, st4))) => {
                                let (r3, st5) = s_get(st4);
                                match r3 {
                                    Err(e) => Some(Err(ParseErrorV::Lex(syntax_error_text()))),
                                    Ok(t3) => if t3 is RightParen {
                                        Some(Ok((negate_if(neg, e0), st5)))
                                    } else {
                                        Some(Err(ParseErrorV::Unbalanced))
                                    },
                                }
                            },
                        },
                        _ => Some(Ok((negate_if(neg, ExprV::Empty), s_back(st3, t2)))),
                    },
                }
            },
        }
    }
}

/// Requesting a token keeps the state well formed and never adds input; a
/// token other than `End` consumes at least one unit of it.
proof fn lemma_s_get_state(st: PStateV)
    requires
        state_wf(st),
    ensures
        ({
            let (r, st1) = s_get(st);
            state_wf(st1) && st1.text == st.text && st1.la is None && remaining(st1) <= remaining(
                st,
            ) && (match r {
                Ok(t) => !(t is End) ==> remaining(st1) < remaining(st),
                Err(e) => true,
            })
        }),
{
    match st.la {
        Some(_) => {},
        None => {
            lemma_token_end_bounds(st.text, st.pos);
        },
    }
}

/// Fuel only limits the depth of the specification: once enough fuel yields
/// an answer, more fuel yields the same answer.
proof fn lemma_mono_expression(st: PStateV, f1: nat, f2: nat)
    requires
        f1 <= f2,
        s_expression(st, f1) is Some,
    ensures
        s_expression(st, f2) == s_expression(st, f1),
    decreases f1,
{
    let fm1 = (f1 - 1) as nat;
    let fm2 = (f2 - 1) as nat;
    lemma_mono_term(st, fm1, fm2);
    match s_term(st, fm1) {
        Some(Ok((e0, st1))) => {
            lemma_mono_expr_rest(e0, st1, fm1, fm2);
        },
        _ => {},
    }
}

/// Fuel monotonicity for the tail of an `expression`.
proof fn lemma_mono_expr_rest(acc: ExprV, st: PStateV, f1: nat, f2: nat)
    requires
        f1 <= f2,
        s_expr_rest(acc, st, f1) is Some,
    ensures
        s_expr_rest(acc, st, f2) == s_expr_rest(acc, st, f1),
    decreases f1,
{
    let fm1 = (f1 - 1) as nat;
    let fm2 = (f2 - 1) as nat;
    let (r, st1) = s_get(st);
    match r {
        Err(e) => {},
        Ok(t) => {
            if t is Add || t is Sub {
                lemma_mono_term(st1, fm1, fm2);
                match s_term(st1, fm1) {
                    Some(Ok((e2, st2))) => {
                        let op = if t is Add {
                            BinOp::Add
                        } else {
                            BinOp::Subtract
                        };
                        lemma_mono_expr_rest(
                            ExprV::Binary(op, Box::new(acc), Box::new(e2)),
                            st2,
                            fm1,
                            fm2,
                        );
                    },
                    _ => {},
                }
            }
        },
    }
}

/// Fuel monotonicity for the `term` production.
proof fn lemma_mono_term(st: PStateV, f1: nat, f2: nat)
    requires
        f1 <= f2,
        s_term(st, f1) is Some,
    ensures
        s_term(st, f2) == s_term(st, f1),
    decreases f1,
{
    let fm1 = (f1 - 1) as nat;
    let fm2 = (f2 - 1) as nat;
    lemma_mono_primary(st, fm1, fm2);
    match s_primary(st, fm1) {
        Some(Ok((e0, st1))) => {
            lemma_mono_term_rest(e0, st1, fm1, fm2);
        },
        _ => {},
    }
}

/// Fuel monotonicity for the tail of a `term`.
proof fn lemma_mono_term_rest(acc: ExprV, st: PStateV, f1: nat, f2: nat)
    requires
        f1 <= f2,
        s_term_rest(acc, st, f1) is Some,
    ensures
        s_term_rest(acc, st, f2) == s_term_rest(acc, st, f1),
    decreases f1,
{
    let fm1 = (f1 - 1) as nat;
    let fm2 = (f2 - 1) as nat;
    let (r, st1) = s_get(st);
    match r {
        Err(e) => {},
        Ok(t) => {
            if t is Mul || t is Div {
                lemma_mono_primary(st1, fm1, fm2);
                match s_primary(st1, fm1) {
                    Some(Ok((e2, st2))) => {
                        let op = if t is Mul {
                            BinOp::Multiply
                        } else {
                            BinOp::Divide
                        };
                        lemma_mono_term_rest(
                            ExprV::Binary(op, Box::new(acc), Box::new(e2)),
                            st2,
                            fm1,
                            fm2,
                        );
                    },
                    _ => {},
                }
            }
        },
    }
}

/// Fuel monotonicity for the `primary` production.
proof fn lemma_mono_primary(st: PStateV, f1: nat, f2: nat)
    requires
        f1 <= f2,
        s_primary(st, f1) is Some,
    ensures
        s_primary(st, f2) == s_primary(st, f1),
    decreases f1,
{
    let fm1 = (f1 - 1) as nat;
    let fm2 = (f2 - 1) as nat;
    let (r1, st1) = s_get(st);
    match r1 {
        Err(e) => {},
        Ok(t1) => {
            let neg = t1 is Sub;
            let st2 = if neg {
                st1
            } else {
                s_back(st1, t1)
            };
            let (r2, st3) = s_get(st2);
            match r2 {
                Err(e) => {},
                Ok(t2) => match t2 {
                    TokenV::LeftParen => {
                        lemma_mono_expression(st3, fm1, fm2);
                    },
                    _ => {},
                },
            }
        },
    }
}

/// The outcome of the `expression` production from a state: the answer the
/// fuel-indexed specification gives once any fuel is enough, or `None` where
/// no fuel is (by monotonicity the answer does not depend on the fuel chosen).
pub open spec fn p_expression(st: PStateV) -> Option<Result<(ExprV, PStateV), ParseErrorV>> {
    if exists|f: nat| s_expression(st, f) is Some {
        s_expression(st, choose|f: nat| s_expression(st, f) is Some)
    } else {
        None
    }
}

/// The outcome of the tail of an `expression`, as [`p_expression`].
pub open spec fn p_expr_rest(acc: ExprV, st: PStateV) -> Option<
    Result<(ExprV, PStateV), ParseErrorV>,
> {
    if exists|f: nat| s_expr_rest(acc, st, f) is Some {
        s_expr_rest(acc, st, choose|f: nat| s_expr_rest(acc, st, f) is Some)
    } else {
        None
    }
}

/// The outcome of the `term` production, as [`p_expression`].
pub open spec fn p_term(st: PStateV) -> Option<Result<(ExprV, PStateV), ParseErrorV>> {
    if exists|f: nat| s_term(st, f) is Some {
        s_term(st, choose|f: nat| s_term(st, f) is Some)
    } else {
        None
    }
}

/// The outcome of the tail of a `term`, as [`p_expression`].
pub open spec fn p_term_rest(acc: ExprV, st: PStateV) -> Option<
    Result<(ExprV, PStateV), ParseErrorV>,
> {
    if exists|f: nat| s_term_rest(acc, st, f) is Some {
        s_term_rest(acc, st, choose|f: nat| s_term_rest(acc, st, f) is Some)
    } else {
        None
    }
}

/// The outcome of the `primary` production, as [`p_expression`].
pub open spec fn p_primary(st: PStateV) -> Option<Result<(ExprV, PStateV), ParseErrorV>> {
    if exists|f: nat| s_primary(st, f) is Some {
        s_primary(st, choose|f: nat| s_primary(st, f) is Some)
    } else {
        None
    }
}

/// Any sufficient fuel witnesses the outcome of `expression`.
proof fn lemma_p_expression(st: PStateV, f: nat)
    requires
        s_expression(st, f) is Some,
    ensures
        p_expression(st) == s_expression(st, f),
{
    let fc = choose|f2: nat| s_expression(st, f2) is Some;
    if fc <= f {
        lemma_mono_expression(st, fc, f);
    } else {
        lemma_mono_expression(st, f, fc);
    }
}

/// Any sufficient fuel witnesses the outcome of an `expression` tail.
proof fn lemma_p_expr_rest(acc: ExprV, st: PStateV, f: nat)
    requires
        s_expr_rest(acc, st, f) is Some,
    ensures
        p_expr_rest(acc, st) == s_expr_rest(acc, st, f),
{
    let fc = choose|f2: nat| s_expr_rest(acc, st, f2) is Some;
    if fc <= f {
        lemma_mono_expr_rest(acc, st, fc, f);
    } else {
        lemma_mono_expr_rest(acc, st, f, fc);
    }
}

/// Any sufficient fuel witnesses the outcome of `term`.
proof fn lemma_p_term(st: PStateV, f: nat)
    requires
        s_term(st, f) is Some,
    ensures
        p_term(st) == s_term(st, f),
{
    let fc = choose|f2: nat| s_term(st, f2) is Some;
    if fc <= f {
        lemma_mono_term(st, fc, f);
    } else {
        lemma_mono_term(st, f, fc);
    }
}

/// Any sufficient fuel witnesses the outcome of a `term` tail.
proof fn lemma_p_term_rest(acc: ExprV, st: PStateV, f: nat)
    requires
        s_term_rest(acc, st, f) is Some,
    ensures
        p_term_rest(acc, st) == s_term_rest(acc, st, f),
{
    let fc = choose|f2: nat| s_term_rest(acc, st, f2) is Some;
    if fc <= f {
        lemma_mono_term_rest(acc, st, fc, f);
    } else {
        lemma_mono_term_rest(acc, st, f, fc);
    }
}

/// One step of the outcome of `expression`: a `term`, then the tail.
proof fn lemma_p_expression_unfold(st: PStateV)
    ensures
        p_expression(st) == (match p_term(st) {
            None => None,
            Some(Err(e)) => Some(Err(e)),
            Some(Ok((e0, st1))) => p_expr_rest(e0, st1),
        }),
{
    if p_expression(st) is Some {
        let f = choose|f: nat| s_expression(st, f) is Some;
        lemma_p_expression(st, f);
        let fm = (f - 1) as nat;
        lemma_p_term(st, fm);
        match s_term(st, fm) {
            Some(Ok((e0, st1))) => {
                lemma_p_expr_rest(e0, st1, fm);
            },
            _ => {},
        }
    } else {
        if p_term(st) is Some {
            let ft = choose|f: nat| s_term(st, f) is Some;
            lemma_p_term(st, ft);
            match s_term(st, ft) {
                Some(Err(e)) => {
                    assert(s_expression(st, ft + 1) is Some);
                    assert(false);
                },
                Some(Ok((e0, st1))) => {
                    if p_expr_rest(e0, st1) is Some {
                        let fr = choose|f: nat| s_expr_rest(e0, st1, f) is Some;
                        let fbig = if ft >= fr {
                            ft
                        } else {
                            fr
                        };
                        lemma_mono_term(st, ft, fbig);
                        lemma_mono_expr_rest(e0, st1, fr, fbig);
                        assert(s_expression(st, fbig + 1) is Some);
                        assert(false);
                    }
                },
                _ => {},
            }
        }
    }
}

/// One step of the outcome of an `expression` tail: request a token; on `+`
/// or `-` parse another `term` and accumulate, otherwise push the token back
/// and finish.
proof fn lemma_p_expr_rest_unfold(acc: ExprV, st: PStateV)
    ensures
        p_expr_rest(acc, st) == ({
            let (r, st1) = s_get(st);
            match r {
                Err(e) => Some(Err(ParseErrorV::Lex(syntax_error_text()))),
                Ok(t) => if t is Add || t is Sub {
                    let op = if t is Add {
                        BinOp::Add
                    } else {
                        BinOp::Subtract
                    };
                    match p_term(st1) {
                        None => None,
                        Some(Err(e)) => Some(Err(e)),
                        Some(Ok((e2, st2))) => p_expr_rest(
                            ExprV::Binary(op, Box::new(acc), Box::new(e2)),
                            st2,
                        ),
                    }
                } else {
                    Some(Ok((acc, s_back(st1, t))))
                },
            }
        }),
{
    let (r, st1) = s_get(st);
    if p_expr_rest(acc, st) is Some {
        let f = choose|f: nat| s_expr_rest(acc, st, f) is Some;
        lemma_p_expr_rest(acc, st, f);
        let fm = (f - 1) as nat;
        match r {
            Ok(t) => {
                if t is Add || t is Sub {
                    let op = if t is Add {
                        BinOp::Add
                    } else {
                        BinOp::Subtract
                    };
                    lemma_p_term(st1, fm);
                    match s_term(st1, fm) {
                        Some(Ok((e2, st2))) => {
                            lemma_p_expr_rest(
                                ExprV::Binary(op, Box::new(acc), Box::new(e2)),
                                st2,
                                fm,
                            );
                        },
                        _ => {},
                    }
                }
            },
            _ => {},
        }
    } else {
        match r {
            Err(e) => {
                assert(s_expr_rest(acc, st, 1) is Some);
                assert(false);
            },
            Ok(t) => {
                if t is Add || t is Sub {
                    let op = if t is Add {
                        BinOp::Add
                    } else {
                        BinOp::Subtract
                    };
                    if p_term(st1) is Some {
                        let ft = choose|f: nat| s_term(st1, f) is Some;
                        lemma_p_term(st1, ft);
                        match s_term(st1, ft) {
                            Some(Err(e)) => {
                                assert(s_expr_rest(acc, st, ft + 1) is Some);
                                assert(false);
                            },
                            Some(Ok((e2, st2))) => {
                                let acc2 = ExprV::Binary(op, Box::new(acc), Box::new(e2));
                                if p_expr_rest(acc2, st2) is Some {
                                    let fr = choose|f: nat| s_expr_rest(acc2, st2, f) is Some;
                                    let fbig = if ft >= fr {
                                        ft
                                    } else {
                                        fr
                                    };
                                    lemma_mono_term(st1, ft, fbig);
                                    lemma_mono_expr_rest(acc2, st2, fr, fbig);
                                    assert(s_expr_rest(acc, st, fbig + 1) is Some);
                                    assert(false);
                                }
                            },
                            _ => {},
                        }
                    }
                } else {
                    assert(s_expr_rest(acc, st, 1) is Some);
                    assert(false);
                }
            },
        }
    }
}

/// One step of the outcome of `term`: a `primary`, then the tail.
proof fn lemma_p_term_unfold(st: PStateV)
    ensures
        p_term(st) == (match p_primary(st) {
            None => None,
            Some(Err(e)) => Some(Err(e)),
            Some(Ok((e0, st1))) => p_term_rest(e0, st1),
        }),
{
    if p_term(st) is Some {
        let f = choose|f: nat| s_term(st, f) is Some;
        lemma_p_term(st, f);
        let fm = (f - 1) as nat;
        lemma_p_primary(st, fm);
        match s_primary(st, fm) {
            Some(Ok((e0, st1))) => {
                lemma_p_term_rest(e0, st1, fm);
            },
            _ => {},
        }
    } else {
        if p_primary(st) is Some {
            let ft = choose|f: nat| s_primary(st, f) is Some;
            lemma_p_primary(st, ft);
            match s_primary(st, ft) {
                Some(Err(e)) => {
                    assert(s_term(st, ft + 1) is Some);
                    assert(false);
                },
                Some(Ok((e0, st1))) => {
                    if p_term_rest(e0, st1) is Some {
                        let fr = choose|f: nat| s_term_rest(e0, st1, f) is Some;
                        let fbig = if ft >= fr {
                            ft
                        } else {
                            fr
                        };
                        lemma_mono_primary(st, ft, fbig);
                        lemma_mono_term_rest(e0, st1, fr, fbig);
                        assert(s_term(st, fbig + 1) is Some);
                        assert(false);
                    }
                },
                _ => {},
            }
        }
    }
}

/// One step of the outcome of a `term` tail: request a token; on `*` or `/`
/// parse another `primary` and accumulate, otherwise push the token back and
/// finish.
proof fn lemma_p_term_rest_unfold(acc: ExprV, st: PStateV)
    ensures
        p_term_rest(acc, st) == ({
            let (r, st1) = s_get(st);
            match r {
                Err(e) => Some(Err(ParseErrorV::Lex(syntax_error_text()))),
                Ok(t) => if t is Mul || t is Div {
                    let op = if t is Mul {
                        BinOp::Multiply
                    } else {
                        BinOp::Divide
                    };
                    match p_primary(st1) {
                        None => None,
                        Some(Err(e)) => Some(Err(e)),
                        Some(Ok((e2, st2))) => p_term_rest(
                            ExprV::Binary(op, Box::new(acc), Box::new(e2)),
                            st2,
                        ),
                    }
                } else {
                    Some(Ok((acc, s_back(st1, t))))
                },
            }
        }),
{
    let (r, st1) = s_get(st);
    if p_term_rest(acc, st) is Some {
        let f = choose|f: nat| s_term_rest(acc, st, f) is Some;
        lemma_p_term_rest(acc, st, f);
        let fm = (f - 1) as nat;
        match r {
            Ok(t) => {
                if t is Mul || t is Div {
                    let op = if t is Mul {
                        BinOp::Multiply
                    } else {
                        BinOp::Divide
                    };
                    lemma_p_primary(st1, fm);
                    match s_primary(st1, fm) {
                        Some(Ok((e2, st2))) => {
                            lemma_p_term_rest(
                                ExprV::Binary(op, Box::new(acc), Box::new(e2)),
                                st2,
                                fm,
                            );
                        },
                        _ => {},
                    }
                }
            },
            _ => {},
        }
    } else {
        match r {
            Err(e) => {
                assert(s_term_rest(acc, st, 1) is Some);
                assert(false);
            },
            Ok(t) => {
                if t is Mul || t is Div {
                    let op = if t is Mul {
                        BinOp::Multiply
                    } else {
                        BinOp::Divide
                    };
                    if p_primary(st1) is Some {
                        let ft = choose|f: nat| s_primary(st1, f) is Some;
                        lemma_p_primary(st1, ft);
                        match s_primary(st1, ft) {
                            Some(Err(e)) => {
                                assert(s_term_rest(acc, st, ft + 1) is Some);
                                assert(false);
                            },
                            Some(Ok((e2, st2))) => {
                                let acc2 = ExprV::Binary(op, Box::new(acc), Box::new(e2));
                                if p_term_rest(acc2, st2) is Some {
                                    let fr = choose|f: nat| s_term_rest(acc2, st2, f) is Some;
                                    let fbig = if ft >= fr {
                                        ft
                                    } else {
                                        fr
                                    };
                                    lemma_mono_primary(st1, ft, fbig);
                                    lemma_mono_term_rest(acc2, st2, fr, fbig);
                                    assert(s_term_rest(acc, st, fbig + 1) is Some);
                                    assert(false);
                                }
                            },
                            _ => {},
                        }
                    }
                } else {
                    assert(s_term_rest(acc, st, 1) is Some);
                    assert(false);
                }
            },
        }
    }
}

/// One step of the outcome of `primary`: the optional unary minus, then a
/// number, a parenthesized `expression` with its required `)`, or the
/// permissive empty operand.
proof fn lemma_p_primary_unfold(st: PStateV)
    ensures
        p_primary(st) == ({
            let (r1, st1) = s_get(st);
            match r1 {
                Err(e) => Some(Err(ParseErrorV::Lex(syntax_error_text()))),
                Ok(t1) => {
                    let neg = t1 is Sub;
                    let st2 = if neg {
                        st1
                    } else {
                        s_back(st1, t1)
                    };
                    let (r2, st3) = s_get(st2);
                    match r2 {
                        Err(e) => Some(Err(ParseErrorV::Lex(syntax_error_text()))),
                        Ok(t2) => match t2 {
                            TokenV::Number(text) => Some(
                                Ok((negate_if(neg, ExprV::Literal(text)), st3)),
                            ),
                            TokenV::LeftParen => match p_expression(st3) {
                                None => None,
                                Some(Err(e)) => Some(Err(e)),
                                Some(Ok((e0, st4))) => {
                                    let (r3, st5) = s_get(st4);
                                    match r3 {
                                        Err(e) => Some(
                                            Err(ParseErrorV::Lex(syntax_error_text())),
                                        ),
                                        Ok(t3) => if t3 is RightParen {
                                            Some(Ok((negate_if(neg, e0), st5)))
                                        } else {
                                            Some(Err(ParseErrorV::Unbalanced))
                                        },
                                    }
                                },
                            },
                            _ => Some(Ok((negate_if(neg, ExprV::Empty), s_back(st3, t2)))),
                        },
                    }
                },
            }
        }),
{
    let (r1, st1) = s_get(st);
    if p_primary(st) is Some {
        let f = choose|f: nat| s_primary(st, f) is Some;
        lemma_p_primary(st, f);
        let fm = (f - 1) as nat;
        match r1 {
            Ok(t1) => {
                let neg = t1 is Sub;
                let st2 = if neg {
                    st1
                } else {
                    s_back(st1, t1)
                };
                let (r2, st3) = s_get(st2);
                match r2 {
                    Ok(t2) => match t2 {
                        TokenV::LeftParen => {
                            lemma_p_expression(st3, fm);
                        },
                        _ => {},
                    },
                    _ => {},
                }
            },
            _ => {},
        }
    } else {
        match r1 {
            Err(e) => {
                assert(s_primary(st, 1) is Some);
                assert(false);
            },
            Ok(t1) => {
                let neg = t1 is Sub;
                let st2 = if neg {
                    st1
                } else {
                    s_back(st1, t1)
                };
                let (r2, st3) = s_get(st2);
                match r2 {
                    Err(e) => {
                        assert(s_primary(st, 1) is Some);
                        assert(false);
                    },
                    Ok(t2) => match t2 {
                        TokenV::LeftParen => {
                            if p_expression(st3) is Some {
                                let fe = choose|f: nat| s_expression(st3, f) is Some;
                                lemma_p_expression(st3, fe);
                                assert(s_primary(st, fe + 1) is Some);
                                assert(false);
                            }
                        },
                        _ => {
                            assert(s_primary(st, 1) is Some);
                            assert(false);
                        },
                    },
                }
            },
        }
    }
}

/// Any sufficient fuel witnesses the outcome of `primary`.
proof fn lemma_p_primary(st: PStateV, f: nat)
    requires
        s_primary(st, f) is Some,
    ensures
        p_primary(st) == s_primary(st, f),
{
    let fc = choose|f2: nat| s_primary(st, f2) is Some;
    if fc <= f {
        lemma_mono_primary(st, fc, f);
    } else {
        lemma_mono_primary(st, f, fc);
    }
}

/// The outcome of parsing a source text from the start.
pub open spec fn parse_outcome(text: Seq<char>) -> Option<Result<(ExprV, PStateV), ParseErrorV>> {
    p_expression(init_state(text))
}

/// Law: for all valid input strings, parsing is deterministic — the outcome
/// of a parse is a function of the source text alone, so identical input
/// always yields identical output.
pub proof fn lemma_parse_deterministic(
    text: Seq<char>,
    r1: Result<(ExprV, PStateV), ParseErrorV>,
    r2: Result<(ExprV, PStateV), ParseErrorV>,
)
    requires
        parse_outcome(text) == Some(r1),
        parse_outcome(text) == Some(r2),
    ensures
        r1 == r2,
{
}

/// The parser: pulls tokens from its tokenizer on demand, with a one-slot
/// pushback buffer, and builds the expression tree by recursive descent.
pub struct Parser {
    lexer: Lexer,
    look_ahead_token: Option<Token>,
}

impl View for Parser {
    type V = PStateV;

    closed spec fn view(&self) -> PStateV {
        PStateV {
            text: self.lexer@.text,
            pos: self.lexer@.pos,
            la: match self.look_ahead_token {
                Some(t) => Some(t@),
                None => None,
            },
        }
    }
}

impl Parser {
    /// The parser's invariant: its tokenizer's cursor never passes the end of
    /// the text.
    pub open spec fn wf(&self) -> bool {
        state_wf(self@)
    }

    /// Builds a parser over the given source text.
    pub fn new(source: &str) -> (parser: Parser)
        ensures
            parser.wf(),
            parser@ == init_state(source@),
    {
        let parser = Parser { lexer: Lexer::new(source), look_ahead_token: None };
        proof {
            assert(parser@ =~= init_state(source@));
        }
        parser
    }

    /// Requests one token: the pushed-back token if one is buffered,
    /// otherwise the next token from the tokenizer; a tokenizer failure
    /// surfaces as a [`ParseError::TokenizerFailure`].
    fn get_token(&mut self) -> (r: Result<Token, ParseError>)
        requires
            old(self).wf(),
        ensures
            final(self).wf(),
            ({
                let (r0, st1) = s_get(old(self)@);
                final(self)@ == st1 && match r {
                    Ok(token) => r0 == Ok::<TokenV, ()>(token@),
                    Err(pe) => r0 is Err && pe@ == ParseErrorV::Lex(syntax_error_text()),
                }
            }),
    {
        match self.look_ahead_token.take() {
            Some(token) => {
                proof {
                    assert(self@ =~= s_get(old(self)@).1);
                }
                Ok(token)
            },
            None => {
                let r = self.lexer.get_token();
                proof {
                    assert(self@ =~= s_get(old(self)@).1);
                }
                match r {
                    Ok(token) => Ok(token),
                    Err(m) => Err(ParseError::TokenizerFailure(m)),
                }
            },
        }
    }

    /// Stores one token for the next request: the buffer holds at most this
    /// one token, and the next request returns it before the tokenizer is
    /// consulted again.
    fn back_token(&mut self, token: Token)
        requires
            old(self).wf(),
        ensures
            final(self).wf(),
            final(self)@ == s_back(old(self)@, token@),
    {
        let ghost tv = token@;
        self.look_ahead_token = Some(token);
        proof {
            assert(self@ =~= s_back(old(self)@, tv));
        }
    }

    /// Runs the whole parse: one `expression` production from the current
    /// state. The result and the state afterwards are exactly the outcome
    /// that [`parse_outcome`] gives for the source text, so identical input
    /// always yields identical output; every tokenizer failure and every
    /// unbalanced group surfaces as the corresponding error.
    pub fn parse(&mut self) -> (r: Result<Expr, ParseError>)
        requires
            old(self).wf(),
        ensures
            final(self).wf(),
            match r {
                Ok(e) => p_expression(old(self)@) == Some(
                    Ok::<(ExprV, PStateV), ParseErrorV>((e@, final(self)@)),
                ),
                Err(pe) => p_expression(old(self)@) == Some(
                    Err::<(ExprV, PStateV), ParseErrorV>(pe@),
                ),
            },
    {
        self.expression()
    }

    /// The `expression` production: a `term`, then repeatedly a `+` or `-`
    /// and another `term`, accumulating left-associatively; any other token
    /// is pushed back and ends the production.
    fn expression(&mut self) -> (r: Result<Expr, ParseError>)
        requires
            old(self).wf(),
        ensures
            final(self).wf(),
            remaining(final(self)@) <= remaining(old(self)@),
            match r {
                Ok(e) => p_expression(old(self)@) == Some(
                    Ok::<(ExprV, PStateV), ParseErrorV>((e@, final(self)@)),
                ),
                Err(pe) => p_expression(old(self)@) == Some(
                    Err::<(ExprV, PStateV), ParseErrorV>(pe@),
                ),
            },
        decreases remaining(self@), 2int,
    {
        let ghost st0 = self@;
        proof {
            lemma_p_expression_unfold(st0);
        }
        let mut left = match self.term() {
            Ok(e) => e,
            Err(pe) => {
                return Err(pe);
            },
        };
        loop
            invariant
                self.wf(),
                st0 == old(self)@,
                remaining(self@) <= remaining(st0),
                p_expression(st0) == p_expr_rest(left@, self@),
            decreases remaining(self@),
        {
            let ghost st_iter = self@;
            proof {
                lemma_p_expr_rest_unfold(left@, st_iter);
                lemma_s_get_state(st_iter);
            }
            let token = match self.get_token() {
                Ok(t) => t,
                Err(pe) => {
                    return Err(pe);
                },
            };
            if !(matches!(token.token_type, TokenType::AddOperator | TokenType::SubOperator)) {
                self.back_token(token);
                return Ok(left);
            }
            let is_add = matches!(token.token_type, TokenType::AddOperator);
            let right = match self.term() {
                Ok(e) => e,
                Err(pe) => {
                    return Err(pe);
                },
            };
            let op = if is_add {
                BinOp::Add
            } else {
                BinOp::Subtract
            };
            left = Expr::Binary(op, Box::new(left), Box::new(right));
        }
    }

    /// The `term` production: a `primary`, then repeatedly a `*` or `/` and
    /// another `primary`, accumulating left-associatively; any other token is
    /// pushed back and ends the production.
    fn term(&mut self) -> (r: Result<Expr, ParseError>)
        requires
            old(self).wf(),
        ensures
            final(self).wf(),
            remaining(final(self)@) <= remaining(old(self)@),
            match r {
                Ok(e) => p_term(old(self)@) == Some(
                    Ok::<(ExprV, PStateV), ParseErrorV>((e@, final(self)@)),
                ),
                Err(pe) => p_term(old(self)@) == Some(
                    Err::<(ExprV, PStateV), ParseErrorV>(pe@),
                ),
            },
        decreases remaining(self@), 1int,
    {
        let ghost st0 = self@;
        proof {
            lemma_p_term_unfold(st0);
        }
        let mut left = match self.primary_expr() {
            Ok(e) => e,
            Err(pe) => {
                return Err(pe);
            },
        };
        loop
            invariant
                self.wf(),
                st0 == old(self)@,
                remaining(self@) <= remaining(st0),
                p_term(st0) == p_term_rest(left@, self@),
            decreases remaining(self@),
        {
            let ghost st_iter = self@;
            proof {
                lemma_p_term_rest_unfold(left@, st_iter);
                lemma_s_get_state(st_iter);
            }
            let token = match self.get_token() {
                Ok(t) => t,
                Err(pe) => {
                    return Err(pe);
                },
            };
            if !(matches!(token.token_type, TokenType::MulOperator | TokenType::DivOperator)) {
                self.back_token(token);
                return Ok(left);
            }
            let is_mul = matches!(token.token_type, TokenType::MulOperator);
            let right = match self.primary_expr() {
                Ok(e) => e,
                Err(pe) => {
                    return Err(pe);
                },
            };
            let op = if is_mul {
                BinOp::Multiply
            } else {
                BinOp::Divide
            };
            left = Expr::Binary(op, Box::new(left), Box::new(right));
        }
    }

    /// The `primary` production: an optional unary minus, then a number, a
    /// parenthesized `expression` that must be followed by a matching `)`, or
    /// — permissively — an empty operand with the token pushed back.
    fn primary_expr(&mut self) -> (r: Result<Expr, ParseError>)
        requires
            old(self).wf(),
        ensures
            final(self).wf(),
            remaining(final(self)@) <= remaining(old(self)@),
            match r {
                Ok(e) => p_primary(old(self)@) == Some(
                    Ok::<(ExprV, PStateV), ParseErrorV>((e@, final(self)@)),
                ),
                Err(pe) => p_primary(old(self)@) == Some(
                    Err::<(ExprV, PStateV), ParseErrorV>(pe@),
                ),
            },
        decreases remaining(self@), 0int,
    {
        let ghost st0 = self@;
        proof {
            lemma_p_primary_unfold(st0);
            lemma_s_get_state(st0);
        }
        let mut has_minus_flag = false;

        let token = match self.get_token() {
            Ok(t) => t,
            Err(pe) => {
                return Err(pe);
            },
        };
        if matches!(token.token_type, TokenType::SubOperator) {
            has_minus_flag = true;
        } else {
            self.back_token(token);
        }

        let ghost st2 = self@;
        proof {
            lemma_s_get_state(st2);
        }
        let token2 = match self.get_token() {
            Ok(t) => t,
            Err(pe) => {
                return Err(pe);
            },
        };
        match token2.token_type {
            TokenType::Number(text) => {
                let ghost sv = text@;
                let e = Expr::Literal(text);
                proof {
                    assert(e@ == ExprV::Literal(sv));
                }
                if has_minus_flag {
                    let r = Expr::Negate(Box::new(e));
                    proof {
                        assert(r@ == ExprV::Negate(Box::new(ExprV::Literal(sv))));
                    }
                    Ok(r)
                } else {
                    Ok(e)
                }
            },
            TokenType::LeftParen => {
                let inner = match self.expression() {
                    Ok(e) => e,
                    Err(pe) => {
                        return Err(pe);
                    },
                };
                let ghost st4 = self@;
                proof {
                    lemma_s_get_state(st4);
                }
                let token3 = match self.get_token() {
                    Ok(t) => t,
                    Err(pe) => {
                        return Err(pe);
                    },
                };
                if matches!(token3.token_type, TokenType::RightParen) {
                    if has_minus_flag {
                        let ghost iv = inner@;
                        let r = Expr::Negate(Box::new(inner));
                        proof {
                            assert(r@ == ExprV::Negate(Box::new(iv)));
                        }
                        Ok(r)
                    } else {
                        Ok(inner)
                    }
                } else {
                    Err(ParseError::UnbalancedParens)
                }
            },
            _ => {
                self.back_token(token2);
                let e = Expr::Empty;
                proof {
                    assert(e@ == ExprV::Empty);
                }
                if has_minus_flag {
                    let r = Expr::Negate(Box::new(e));
                    proof {
                        assert(r@ == ExprV::Negate(Box::new(ExprV::Empty)));
                    }
                    Ok(r)
                } else {
                    Ok(e)
                }
            },
        }
    }
}

} // verus!
