//! The MiniImp parser: tokens to a command, by recursive descent.
//!
//! Commands are joined by `;`; arithmetic has `*` over `+` and `-`; boolean
//! expressions have `and` over `not` over the atoms `true`, `false`,
//! parenthesised boolean expressions and comparisons `a < b`. Every binary
//! operator groups to the left.
use vstd::prelude::*;
use crate::common::error::{EvalError, ErrorModel, result_view};
use crate::common::text::{text, push_text};
use crate::miniimp::ast::{BoolExpr, Cmd, Expr};
use crate::miniimp::lexer::{Token, TokenModel, token_text};

verus! {

/// What parsing from a position gives: the value and the position after it,
/// or the error.
pub type Parsed<T> = Result<(T, int), ErrorModel>;

/// Is the token at `pos` the given one?
pub open spec fn is_tok(ts: Seq<Token>, pos: int, t: TokenModel) -> bool {
    0 <= pos < ts.len() && ts[pos]@ == t
}

/// Reading the token `expected` at `pos`: the position after it, or the error.
pub open spec fn expect_at(ts: Seq<Token>, pos: int, expected: TokenModel) -> Result<int, ErrorModel> {
    if 0 <= pos < ts.len() {
        if ts[pos]@ == expected {
            Ok(pos + 1)
        } else {
            Err(ErrorModel::ParseError(
                "expected token "@ + token_text(expected) + ", but found "@ + token_text(ts[pos]@),
            ))
        }
    } else {
        Err(ErrorModel::UnexpectedEndOfInput)
    }
}

/// The result of a branch that parsing never takes. Every successful parse
/// moves forward (the `outcome` that each parsing method ensures says so),
/// so the tests on positions that guard these branches always pass.
pub open spec fn stalled<T>() -> Parsed<T> {
    Err(ErrorModel::UnexpectedEndOfInput)
}

/// An arithmetic expression at `pos`.
pub open spec fn expr_at(ts: Seq<Token>, pos: int) -> Parsed<Expr>
    decreases ts.len() - pos, 5int,
{
    sum_at(ts, pos)
}

/// Products joined by `+` and `-` at `pos`.
pub open spec fn sum_at(ts: Seq<Token>, pos: int) -> Parsed<Expr>
    decreases ts.len() - pos, 4int,
{
    match product_at(ts, pos) {
        Ok((e, p)) => if pos < p <= ts.len() { sum_rest(ts, e, p) } else { stalled() },
        Err(err) => Err(err),
    }
}

/// The `+ r` and `- r` parts that follow `left` at `pos`.
pub open spec fn sum_rest(ts: Seq<Token>, left: Expr, pos: int) -> Parsed<Expr>
    decreases ts.len() - pos, 3int,
{
    if is_tok(ts, pos, TokenModel::Plus) || is_tok(ts, pos, TokenModel::Minus) {
        match product_at(ts, pos + 1) {
            Ok((right, p)) => if pos < p <= ts.len() {
                let joined = if is_tok(ts, pos, TokenModel::Plus) {
                    Expr::Add(Box::new(left), Box::new(right))
                } else {
                    Expr::Sub(Box::new(left), Box::new(right))
                };
                sum_rest(ts, joined, p)
            } else {
                stalled()
            },
            Err(err) => Err(err),
        }
    } else {
        Ok((left, pos))
    }
}

/// Atoms joined by `*` at `pos`.
pub open spec fn product_at(ts: Seq<Token>, pos: int) -> Parsed<Expr>
    decreases ts.len() - pos, 2int,
{
    match primary_at(ts, pos) {
        Ok((e, p)) => if pos < p <= ts.len() { product_rest(ts, e, p) } else { stalled() },
        Err(err) => Err(err),
    }
}

/// The `* r` parts that follow `left` at `pos`.
pub open spec fn product_rest(ts: Seq<Token>, left: Expr, pos: int) -> Parsed<Expr>
    decreases ts.len() - pos, 1int,
{
    if is_tok(ts, pos, TokenModel::Star) {
        match primary_at(ts, pos + 1) {
            Ok((right, p)) => if pos < p <= ts.len() {
                product_rest(ts, Expr::Mul(Box::new(left), Box::new(right)), p)
            } else {
                stalled()
            },
            Err(err) => Err(err),
        }
    } else {
        Ok((left, pos))
    }
}

/// An arithmetic atom at `pos`: a number, a name or a parenthesised expression.
pub open spec fn primary_at(ts: Seq<Token>, pos: int) -> Parsed<Expr>
    decreases ts.len() - pos, 0int,
{
    if 0 <= pos < ts.len() {
        match ts[pos] {
            Token::Number(v) => Ok((Expr::Int(v), pos + 1)),
            Token::Identifier(name) => Ok((Expr::Var(name), pos + 1)),
            Token::LParen => match expr_at(ts, pos + 1) {
                Ok((e, p)) => match expect_at(ts, p, TokenModel::RParen) {
                    Ok(q) => Ok((e, q)),
                    Err(err) => Err(err),
                },
                Err(err) => Err(err),
            },
            _ => Err(ErrorModel::ParseError(
                "unexpected token "@ + token_text(ts[pos]@) + " while parsing an arithmetic expression"@,
            )),
        }
    } else {
        Err(ErrorModel::UnexpectedEndOfInput)
    }
}

/// A boolean expression at `pos`.
pub open spec fn bool_at(ts: Seq<Token>, pos: int) -> Parsed<BoolExpr>
    decreases ts.len() - pos, 4int,
{
    bool_and_at(ts, pos)
}

/// Negations joined by `and` at `pos`.
pub open spec fn bool_and_at(ts: Seq<Token>, pos: int) -> Parsed<BoolExpr>
    decreases ts.len() - pos, 3int,
{
    match bool_not_at(ts, pos) {
        Ok((b, p)) => if pos < p <= ts.len() { bool_and_rest(ts, b, p) } else { stalled() },
        Err(err) => Err(err),
    }
}

/// The `and r` parts that follow `left` at `pos`.
pub open spec fn bool_and_rest(ts: Seq<Token>, left: BoolExpr, pos: int) -> Parsed<BoolExpr>
    decreases ts.len() - pos, 2int,
{
    if is_tok(ts, pos, TokenModel::And) {
        match bool_not_at(ts, pos + 1) {
            Ok((right, p)) => if pos < p <= ts.len() {
                bool_and_rest(ts, BoolExpr::And(Box::new(left), Box::new(right)), p)
            } else {
                stalled()
            },
            Err(err) => Err(err),
        }
    } else {
        Ok((left, pos))
    }
}

/// A boolean atom under any number of `not`, at `pos`.
pub open spec fn bool_not_at(ts: Seq<Token>, pos: int) -> Parsed<BoolExpr>
    decreases ts.len() - pos, 1int,
{
    if is_tok(ts, pos, TokenModel::Not) {
        match bool_not_at(ts, pos + 1) {
            Ok((inner, p)) => Ok((BoolExpr::Not(Box::new(inner)), p)),
            Err(err) => Err(err),
        }
    } else {
        bool_primary_at(ts, pos)
    }
}

/// A boolean atom at `pos`: `true`, `false`, a parenthesised boolean
/// expression, or a comparison `a < b`.
pub open spec fn bool_primary_at(ts: Seq<Token>, pos: int) -> Parsed<BoolExpr>
    decreases ts.len() - pos, 0int,
{
    if is_tok(ts, pos, TokenModel::True) {
        Ok((BoolExpr::True, pos + 1))
    } else if is_tok(ts, pos, TokenModel::False) {
        Ok((BoolExpr::False, pos + 1))
    } else if is_tok(ts, pos, TokenModel::LParen) {
        match bool_at(ts, pos + 1) {
            Ok((b, p)) => match expect_at(ts, p, TokenModel::RParen) {
                Ok(q) => Ok((b, q)),
                Err(err) => Err(err),
            },
            Err(err) => Err(err),
        }
    } else {
        match expr_at(ts, pos) {
            Ok((left, p)) => if is_tok(ts, p, TokenModel::Less) {
                match expr_at(ts, p + 1) {
                    Ok((right, q)) => Ok((BoolExpr::Less(Box::new(left), Box::new(right)), q)),
                    Err(err) => Err(err),
                }
            } else {
                Err(ErrorModel::ParseError("expected a boolean expression or a comparison using '<'"@))
            },
            Err(err) => Err(err),
        }
    }
}

/// Simple commands joined by `;` at `pos`.
pub open spec fn cmd_at(ts: Seq<Token>, pos: int) -> Parsed<Cmd>
    decreases ts.len() - pos, 3int,
{
    match simple_cmd_at(ts, pos) {
        Ok((c, p)) => if pos < p <= ts.len() { cmd_rest(ts, c, p) } else { stalled() },
        Err(err) => Err(err),
    }
}

/// The `; c` parts that follow `left` at `pos`.
pub open spec fn cmd_rest(ts: Seq<Token>, left: Cmd, pos: int) -> Parsed<Cmd>
    decreases ts.len() - pos, 2int,
{
    if is_tok(ts, pos, TokenModel::Semicolon) {
        match simple_cmd_at(ts, pos + 1) {
            Ok((next, p)) => if pos < p <= ts.len() {
                cmd_rest(ts, Cmd::Sequence(Box::new(left), Box::new(next)), p)
            } else {
                stalled()
            },
            Err(err) => Err(err),
        }
    } else {
        Ok((left, pos))
    }
}

/// A command that no `;` splits, at `pos`: `skip`, an `if`, a `while`, a
/// parenthesised command or an assignment.
pub open spec fn simple_cmd_at(ts: Seq<Token>, pos: int) -> Parsed<Cmd>
    decreases ts.len() - pos, 1int,
{
    if 0 <= pos < ts.len() {
        match ts[pos] {
            Token::Skip => Ok((Cmd::Skip, pos + 1)),
            Token::If => match bool_at(ts, pos + 1) {
                Err(err) => Err(err),
                Ok((b, p1)) => match expect_at(ts, p1, TokenModel::Then) {
                    Err(err) => Err(err),
                    Ok(p2) => if pos < p2 <= ts.len() {
                        match cmd_at(ts, p2) {
                            Err(err) => Err(err),
                            Ok((c1, p3)) => match expect_at(ts, p3, TokenModel::Else) {
                                Err(err) => Err(err),
                                Ok(p4) => if pos < p4 <= ts.len() {
                                    match cmd_at(ts, p4) {
                                        Err(err) => Err(err),
                                        Ok((c2, p5)) => Ok((Cmd::If(b, Box::new(c1), Box::new(c2)), p5)),
                                    }
                                } else {
                                    stalled()
                                },
                            },
                        }
                    } else {
                        stalled()
                    },
                },
            },
            Token::While => match bool_at(ts, pos + 1) {
                Err(err) => Err(err),
                Ok((b, p1)) => match expect_at(ts, p1, TokenModel::Do) {
                    Err(err) => Err(err),
                    Ok(p2) => if pos < p2 <= ts.len() {
                        match cmd_at(ts, p2) {
                            Err(err) => Err(err),
                            Ok((body, p3)) => Ok((Cmd::While(b, Box::new(body)), p3)),
                        }
                    } else {
                        stalled()
                    },
                },
            },
            Token::LParen => match cmd_at(ts, pos + 1) {
                Err(err) => Err(err),
                Ok((c, p)) => match expect_at(ts, p, TokenModel::RParen) {
                    Ok(q) => Ok((c, q)),
                    Err(err) => Err(err),
                },
            },
            Token::Identifier(_) => assignment_at(ts, pos),
            _ => Err(ErrorModel::ParseError(
                "unexpected token "@ + token_text(ts[pos]@) + " while parsing a command"@,
            )),
        }
    } else {
        Err(ErrorModel::UnexpectedEndOfInput)
    }
}

/// An assignment `x := e` at `pos`.
pub open spec fn assignment_at(ts: Seq<Token>, pos: int) -> Parsed<Cmd>
    decreases ts.len() - pos, 0int,
{
    if 0 <= pos < ts.len() {
        match ts[pos] {
            Token::Identifier(name) => match expect_at(ts, pos + 1, TokenModel::Assign) {
                Err(err) => Err(err),
                Ok(p1) => match expr_at(ts, p1) {
                    Err(err) => Err(err),
                    Ok((e, p2)) => Ok((Cmd::Assign(name, e), p2)),
                },
            },
            _ => Err(ErrorModel::ParseError(
                "expected an identifier in assignment, but found "@ + token_text(ts[pos]@),
            )),
        }
    } else {
        Err(ErrorModel::UnexpectedEndOfInput)
    }
}

/// A whole command from `pos` to the last token.
pub open spec fn finish_at(ts: Seq<Token>, pos: int) -> Result<Cmd, ErrorModel> {
    match cmd_at(ts, pos) {
        Ok((c, p)) => if 0 <= p < ts.len() {
            Err(ErrorModel::ParseError(
                "unexpected extra token Some("@ + token_text(ts[p]@) + ") after the end of the command"@,
            ))
        } else {
            Ok(c)
        },
        Err(err) => Err(err),
    }
}

/// The command that a whole token list spells, or the first error.
pub open spec fn parse_spec(ts: Seq<Token>) -> Result<Cmd, ErrorModel> {
    finish_at(ts, 0)
}

// ---------------------------------------------------------------------------
// Laws of the grammar

/// A parse that succeeds moves forward and stays within the tokens.
pub open spec fn advances<T>(r: Parsed<T>, pos: int, len: int) -> bool {
    r matches Ok((_, p)) ==> pos < p <= len
}

/// A parse of what follows a part ends at or after `pos`, within the tokens.
pub open spec fn stays<T>(r: Parsed<T>, pos: int, len: int) -> bool {
    r matches Ok((_, p)) ==> pos <= p <= len
}

/// Every parse from `pos` that succeeds moves forward within the tokens.
pub open spec fn progress_at(ts: Seq<Token>, pos: int) -> bool {
    let n = ts.len() as int;
    &&& advances(primary_at(ts, pos), pos, n)
    &&& advances(product_at(ts, pos), pos, n)
    &&& advances(sum_at(ts, pos), pos, n)
    &&& advances(expr_at(ts, pos), pos, n)
    &&& (forall|l: Expr| #[trigger] stays(product_rest(ts, l, pos), pos, n))
    &&& (forall|l: Expr| #[trigger] stays(sum_rest(ts, l, pos), pos, n))
    &&& advances(bool_primary_at(ts, pos), pos, n)
    &&& advances(bool_not_at(ts, pos), pos, n)
    &&& advances(bool_and_at(ts, pos), pos, n)
    &&& advances(bool_at(ts, pos), pos, n)
    &&& (forall|l: BoolExpr| #[trigger] stays(bool_and_rest(ts, l, pos), pos, n))
    &&& advances(assignment_at(ts, pos), pos, n)
    &&& advances(simple_cmd_at(ts, pos), pos, n)
    &&& advances(cmd_at(ts, pos), pos, n)
    &&& (forall|l: Cmd| #[trigger] stays(cmd_rest(ts, l, pos), pos, n))
}

/// Every parse that succeeds moves forward within the tokens.
#[verifier::rlimit(60)]
pub proof fn lemma_progress(ts: Seq<Token>, pos: int)
    requires
        0 <= pos <= ts.len(),
    ensures
        progress_at(ts, pos),
    decreases ts.len() - pos,
{
    let n = ts.len() as int;
    assert forall|p: int| pos < p <= n implies #[trigger] progress_at(ts, p) by {
        lemma_progress(ts, p);
    }
    if pos < n {
        assert(progress_at(ts, pos + 1));
    }
    assert(advances(expr_at(ts, pos + 1), pos + 1, n) || pos + 1 > n);
    assert(advances(primary_at(ts, pos), pos, n));
    assert forall|l: Expr| #[trigger] stays(product_rest(ts, l, pos), pos, n) by {
        if is_tok(ts, pos, TokenModel::Star) {
            if let Ok((right, p)) = primary_at(ts, pos + 1) {
                if pos < p <= n {
                    assert(progress_at(ts, p));
                    assert(stays(product_rest(ts, Expr::Mul(Box::new(l), Box::new(right)), p), p, n));
                }
            }
        }
    }
    if let Ok((e, p)) = primary_at(ts, pos) {
        assert(progress_at(ts, p));
        assert(stays(product_rest(ts, e, p), p, n));
    }
    assert(advances(product_at(ts, pos), pos, n));
    assert forall|l: Expr| #[trigger] stays(sum_rest(ts, l, pos), pos, n) by {
        if is_tok(ts, pos, TokenModel::Plus) || is_tok(ts, pos, TokenModel::Minus) {
            if let Ok((right, p)) = product_at(ts, pos + 1) {
                if pos < p <= n {
                    assert(progress_at(ts, p));
                    let joined = if is_tok(ts, pos, TokenModel::Plus) {
                        Expr::Add(Box::new(l), Box::new(right))
                    } else {
                        Expr::Sub(Box::new(l), Box::new(right))
                    };
                    assert(stays(sum_rest(ts, joined, p), p, n));
                }
            }
        }
    }
    if let Ok((e, p)) = product_at(ts, pos) {
        assert(progress_at(ts, p));
        assert(stays(sum_rest(ts, e, p), p, n));
    }
    assert(advances(sum_at(ts, pos), pos, n));
    assert(advances(expr_at(ts, pos), pos, n));
    if let Ok((left, p)) = expr_at(ts, pos) {
        if is_tok(ts, p, TokenModel::Less) {
            assert(progress_at(ts, p + 1));
        }
    }
    assert(advances(bool_primary_at(ts, pos), pos, n));
    lemma_not_progress(ts, pos);
    assert forall|l: BoolExpr| #[trigger] stays(bool_and_rest(ts, l, pos), pos, n) by {
        if is_tok(ts, pos, TokenModel::And) {
            if let Ok((right, p)) = bool_not_at(ts, pos + 1) {
                if pos < p <= n {
                    assert(progress_at(ts, p));
                    assert(stays(bool_and_rest(ts, BoolExpr::And(Box::new(l), Box::new(right)), p), p, n));
                }
            }
        }
    }
    if let Ok((b, p)) = bool_not_at(ts, pos) {
        assert(progress_at(ts, p));
        assert(stays(bool_and_rest(ts, b, p), p, n));
    }
    assert(advances(bool_and_at(ts, pos), pos, n));
    assert(advances(bool_at(ts, pos), pos, n));
    if let Ok(p1) = expect_at(ts, pos + 1, TokenModel::Assign) {
        assert(progress_at(ts, p1));
    }
    assert(advances(assignment_at(ts, pos), pos, n));
    lemma_simple_cmd_progress(ts, pos);
    assert forall|l: Cmd| #[trigger] stays(cmd_rest(ts, l, pos), pos, n) by {
        if is_tok(ts, pos, TokenModel::Semicolon) {
            if let Ok((next, p)) = simple_cmd_at(ts, pos + 1) {
                if pos < p <= n {
                    assert(progress_at(ts, p));
                    assert(stays(cmd_rest(ts, Cmd::Sequence(Box::new(l), Box::new(next)), p), p, n));
                }
            }
        }
    }
    if let Ok((c, p)) = simple_cmd_at(ts, pos) {
        assert(progress_at(ts, p));
        assert(stays(cmd_rest(ts, c, p), p, n));
    }
    assert(advances(cmd_at(ts, pos), pos, n));
}

/// `not` moves forward, given that every parse after `pos` does and that
/// the boolean atom at `pos` does.
proof fn lemma_not_progress(ts: Seq<Token>, pos: int)
    requires
        0 <= pos <= ts.len(),
        forall|p: int| pos < p <= ts.len() ==> #[trigger] progress_at(ts, p),
        advances(bool_primary_at(ts, pos), pos, ts.len() as int),
    ensures
        advances(bool_not_at(ts, pos), pos, ts.len() as int),
{
    if is_tok(ts, pos, TokenModel::Not) {
        assert(progress_at(ts, pos + 1));
    }
}

/// A simple command moves forward, given that every parse after `pos`
/// does and that an assignment at `pos` does.
proof fn lemma_simple_cmd_progress(ts: Seq<Token>, pos: int)
    requires
        0 <= pos <= ts.len(),
        forall|p: int| pos < p <= ts.len() ==> #[trigger] progress_at(ts, p),
        advances(assignment_at(ts, pos), pos, ts.len() as int),
    ensures
        advances(simple_cmd_at(ts, pos), pos, ts.len() as int),
{
    let n = ts.len() as int;
    if 0 <= pos < n {
        assert(progress_at(ts, pos + 1));
        match ts[pos] {
            Token::If => {
                if let Ok((b, p1)) = bool_at(ts, pos + 1) {
                    if let Ok(p2) = expect_at(ts, p1, TokenModel::Then) {
                        if pos < p2 <= n {
                            assert(progress_at(ts, p2));
                            if let Ok((c1, p3)) = cmd_at(ts, p2) {
                                if let Ok(p4) = expect_at(ts, p3, TokenModel::Else) {
                                    if pos < p4 <= n {
                                        assert(progress_at(ts, p4));
                                    }
                                }
                            }
                        }
                    }
                }
            },
            Token::While => {
                if let Ok((b, p1)) = bool_at(ts, pos + 1) {
                    if let Ok(p2) = expect_at(ts, p1, TokenModel::Do) {
                        if pos < p2 <= n {
                            assert(progress_at(ts, p2));
                        }
                    }
                }
            },
            _ => {},
        }
    }
}

proof fn lemma_cmd_rest_end(ts: Seq<Token>, l: Cmd, pos: int)
    requires
        0 <= pos <= ts.len(),
    ensures
        cmd_rest(ts, l, pos) matches Ok((_, r)) ==> !is_tok(ts, r, TokenModel::Semicolon),
    decreases ts.len() - pos,
{
    if is_tok(ts, pos, TokenModel::Semicolon) {
        if let Ok((next, p)) = simple_cmd_at(ts, pos + 1) {
            if pos < p <= ts.len() {
                lemma_cmd_rest_end(ts, Cmd::Sequence(Box::new(l), Box::new(next)), p);
            }
        }
    }
}

proof fn lemma_product_rest_end(ts: Seq<Token>, l: Expr, pos: int)
    requires
        0 <= pos <= ts.len(),
    ensures
        product_rest(ts, l, pos) matches Ok((_, r)) ==> !is_tok(ts, r, TokenModel::Star),
    decreases ts.len() - pos,
{
    if is_tok(ts, pos, TokenModel::Star) {
        if let Ok((right, p)) = primary_at(ts, pos + 1) {
            if pos < p <= ts.len() {
                lemma_product_rest_end(ts, Expr::Mul(Box::new(l), Box::new(right)), p);
            }
        }
    }
}

proof fn lemma_sum_rest_end(ts: Seq<Token>, l: Expr, pos: int)
    requires
        0 <= pos <= ts.len(),
        !is_tok(ts, pos, TokenModel::Star),
    ensures
        sum_rest(ts, l, pos) matches Ok((_, r)) ==> !is_tok(ts, r, TokenModel::Star) && !is_tok(ts, r, TokenModel::Plus)
            && !is_tok(ts, r, TokenModel::Minus),
    decreases ts.len() - pos,
{
    if is_tok(ts, pos, TokenModel::Plus) || is_tok(ts, pos, TokenModel::Minus) {
        if let Ok((right, p)) = product_at(ts, pos + 1) {
            if pos < p <= ts.len() {
                lemma_product_end(ts, pos + 1);
                let joined = if is_tok(ts, pos, TokenModel::Plus) {
                    Expr::Add(Box::new(l), Box::new(right))
                } else {
                    Expr::Sub(Box::new(l), Box::new(right))
                };
                lemma_sum_rest_end(ts, joined, p);
            }
        }
    }
}

proof fn lemma_product_end(ts: Seq<Token>, pos: int)
    requires
        0 <= pos <= ts.len(),
    ensures
        product_at(ts, pos) matches Ok((_, r)) ==> !is_tok(ts, r, TokenModel::Star),
{
    lemma_progress(ts, pos);
    if let Ok((e, p)) = primary_at(ts, pos) {
        lemma_product_rest_end(ts, e, p);
    }
}

/// A whole arithmetic expression ends before a token that could go on with
/// it: no `+`, `-` or `*` follows it.
pub proof fn lemma_expr_end(ts: Seq<Token>, pos: int)
    requires
        0 <= pos <= ts.len(),
    ensures
        expr_at(ts, pos) matches Ok((_, r)) ==> !is_tok(ts, r, TokenModel::Star) && !is_tok(ts, r, TokenModel::Plus)
            && !is_tok(ts, r, TokenModel::Minus),
{
    lemma_progress(ts, pos);
    lemma_product_end(ts, pos);
    if let Ok((e, p)) = product_at(ts, pos) {
        lemma_sum_rest_end(ts, e, p);
    }
}

/// A whole command ends before a token that could go on with it: no `;`
/// follows it.
pub proof fn lemma_cmd_end(ts: Seq<Token>, pos: int)
    requires
        0 <= pos <= ts.len(),
    ensures
        cmd_at(ts, pos) matches Ok((_, r)) ==> !is_tok(ts, r, TokenModel::Semicolon),
{
    lemma_progress(ts, pos);
    if let Ok((c, p)) = simple_cmd_at(ts, pos) {
        lemma_cmd_rest_end(ts, c, p);
    }
}

/// The body of `while b do ...` is the whole command after `do`, with all
/// its `;`: when the command after `do` parses as `c` up to `r`, the loop
/// parses as `while b do c` up to `r`. So `while b do c1; c2` is a loop
/// whose body is `c1; c2`.
pub proof fn lemma_while_body_is_whole_command(ts: Seq<Token>, p: int, b: BoolExpr, q: int, c: Cmd, r: int)
    requires
        0 <= p,
        is_tok(ts, p, TokenModel::While),
        bool_at(ts, p + 1) == Ok::<(BoolExpr, int), ErrorModel>((b, q)),
        is_tok(ts, q, TokenModel::Do),
        cmd_at(ts, q + 1) == Ok::<(Cmd, int), ErrorModel>((c, r)),
    ensures
        simple_cmd_at(ts, p) == Ok::<(Cmd, int), ErrorModel>((Cmd::While(b, Box::new(c)), r)),
        cmd_at(ts, p) == Ok::<(Cmd, int), ErrorModel>((Cmd::While(b, Box::new(c)), r)),
{
    lemma_progress(ts, p + 1);
    lemma_progress(ts, q + 1);
    lemma_cmd_end(ts, q + 1);
    assert(ts[p] is While);
    lemma_cmd_rest_end(ts, Cmd::While(b, Box::new(c)), r);
}

/// The branches of `if b then c1 else c2` are whole commands: the `then`
/// branch runs up to `else`, and the `else` branch takes every `;` that
/// follows.
pub proof fn lemma_if_branches_are_whole_commands(ts: Seq<Token>, p: int, b: BoolExpr, q: int, c1: Cmd, r: int, c2: Cmd, s: int)
    requires
        0 <= p,
        is_tok(ts, p, TokenModel::If),
        bool_at(ts, p + 1) == Ok::<(BoolExpr, int), ErrorModel>((b, q)),
        is_tok(ts, q, TokenModel::Then),
        cmd_at(ts, q + 1) == Ok::<(Cmd, int), ErrorModel>((c1, r)),
        is_tok(ts, r, TokenModel::Else),
        cmd_at(ts, r + 1) == Ok::<(Cmd, int), ErrorModel>((c2, s)),
    ensures
        cmd_at(ts, p) == Ok::<(Cmd, int), ErrorModel>((Cmd::If(b, Box::new(c1), Box::new(c2)), s)),
{
    lemma_progress(ts, p + 1);
    lemma_progress(ts, q + 1);
    lemma_progress(ts, r + 1);
    lemma_cmd_end(ts, r + 1);
    assert(ts[p] is If);
    lemma_cmd_rest_end(ts, Cmd::If(b, Box::new(c1), Box::new(c2)), s);
}

/// `c1 ; c2`, with `c1` and `c2` commands that no `;` splits, is the
/// sequence of `c1` then `c2`.
pub proof fn lemma_sequence_of_two(ts: Seq<Token>, p: int, c1: Cmd, q: int, c2: Cmd, r: int)
    requires
        0 <= p,
        simple_cmd_at(ts, p) == Ok::<(Cmd, int), ErrorModel>((c1, q)),
        is_tok(ts, q, TokenModel::Semicolon),
        simple_cmd_at(ts, q + 1) == Ok::<(Cmd, int), ErrorModel>((c2, r)),
        !is_tok(ts, r, TokenModel::Semicolon),
    ensures
        cmd_at(ts, p) == Ok::<(Cmd, int), ErrorModel>((Cmd::Sequence(Box::new(c1), Box::new(c2)), r)),
{
    lemma_progress(ts, p);
    lemma_progress(ts, q + 1);
    let s = Cmd::Sequence(Box::new(c1), Box::new(c2));
    assert(cmd_rest(ts, s, r) == Ok::<(Cmd, int), ErrorModel>((s, r)));
}

/// `x := e` assigns the whole expression after `:=` to `x`.
pub proof fn lemma_assignment(ts: Seq<Token>, p: int, x: String, e: Expr, q: int)
    requires
        0 <= p,
        p + 1 < ts.len(),
        ts[p] == Token::Identifier(x),
        is_tok(ts, p + 1, TokenModel::Assign),
        expr_at(ts, p + 2) == Ok::<(Expr, int), ErrorModel>((e, q)),
        !is_tok(ts, q, TokenModel::Semicolon),
    ensures
        cmd_at(ts, p) == Ok::<(Cmd, int), ErrorModel>((Cmd::Assign(x, e), q)),
{
    lemma_progress(ts, p + 2);
    assert(assignment_at(ts, p) == Ok::<(Cmd, int), ErrorModel>((Cmd::Assign(x, e), q)));
    assert(cmd_rest(ts, Cmd::Assign(x, e), q) == Ok::<(Cmd, int), ErrorModel>((Cmd::Assign(x, e), q)));
}

/// `a + b` and `a - b`, with `a` and `b` products, are the sum and the
/// difference of `a` and `b`: each operand of `+` and `-` is a whole
/// product, so `*` binds tighter.
pub proof fn lemma_sum_of_products(ts: Seq<Token>, p: int, a: Expr, q: int, b: Expr, r: int)
    requires
        0 <= p,
        product_at(ts, p) == Ok::<(Expr, int), ErrorModel>((a, q)),
        is_tok(ts, q, TokenModel::Plus) || is_tok(ts, q, TokenModel::Minus),
        product_at(ts, q + 1) == Ok::<(Expr, int), ErrorModel>((b, r)),
        !is_tok(ts, r, TokenModel::Plus),
        !is_tok(ts, r, TokenModel::Minus),
    ensures
        expr_at(ts, p) == Ok::<(Expr, int), ErrorModel>((
            if is_tok(ts, q, TokenModel::Plus) { Expr::Add(Box::new(a), Box::new(b)) } else { Expr::Sub(Box::new(a), Box::new(b)) },
            r,
        )),
{
    lemma_progress(ts, p);
    lemma_progress(ts, q + 1);
    let j = if is_tok(ts, q, TokenModel::Plus) { Expr::Add(Box::new(a), Box::new(b)) } else { Expr::Sub(Box::new(a), Box::new(b)) };
    assert(sum_rest(ts, j, r) == Ok::<(Expr, int), ErrorModel>((j, r)));
}

/// `a * b`, with `a` and `b` atoms, is the product of `a` and `b`.
pub proof fn lemma_product_of_atoms(ts: Seq<Token>, p: int, a: Expr, q: int, b: Expr, r: int)
    requires
        0 <= p,
        primary_at(ts, p) == Ok::<(Expr, int), ErrorModel>((a, q)),
        is_tok(ts, q, TokenModel::Star),
        primary_at(ts, q + 1) == Ok::<(Expr, int), ErrorModel>((b, r)),
        !is_tok(ts, r, TokenModel::Star),
        !is_tok(ts, r, TokenModel::Plus),
        !is_tok(ts, r, TokenModel::Minus),
    ensures
        expr_at(ts, p) == Ok::<(Expr, int), ErrorModel>((Expr::Mul(Box::new(a), Box::new(b)), r)),
{
    lemma_progress(ts, p);
    lemma_progress(ts, q + 1);
    let m = Expr::Mul(Box::new(a), Box::new(b));
    assert(product_rest(ts, m, r) == Ok::<(Expr, int), ErrorModel>((m, r)));
    assert(product_at(ts, p) == Ok::<(Expr, int), ErrorModel>((m, r)));
    assert(sum_rest(ts, m, r) == Ok::<(Expr, int), ErrorModel>((m, r)));
}

/// `a < b`, with `a` and `b` whole arithmetic expressions, compares `a`
/// with `b`.
pub proof fn lemma_comparison(ts: Seq<Token>, p: int, a: Expr, q: int, b: Expr, r: int)
    requires
        0 <= p,
        !is_tok(ts, p, TokenModel::True),
        !is_tok(ts, p, TokenModel::False),
        !is_tok(ts, p, TokenModel::LParen),
        !is_tok(ts, p, TokenModel::Not),
        expr_at(ts, p) == Ok::<(Expr, int), ErrorModel>((a, q)),
        is_tok(ts, q, TokenModel::Less),
        expr_at(ts, q + 1) == Ok::<(Expr, int), ErrorModel>((b, r)),
        !is_tok(ts, r, TokenModel::And),
    ensures
        bool_at(ts, p) == Ok::<(BoolExpr, int), ErrorModel>((BoolExpr::Less(Box::new(a), Box::new(b)), r)),
{
    lemma_progress(ts, p);
    lemma_progress(ts, q + 1);
    let c = BoolExpr::Less(Box::new(a), Box::new(b));
    assert(bool_primary_at(ts, p) == Ok::<(BoolExpr, int), ErrorModel>((c, r)));
    assert(bool_and_rest(ts, c, r) == Ok::<(BoolExpr, int), ErrorModel>((c, r)));
}

/// `x and y` is the conjunction of the negations `x` and `y`, and `not x`
/// the negation of `x`.
pub proof fn lemma_conjunction(ts: Seq<Token>, p: int, x: BoolExpr, q: int, y: BoolExpr, r: int)
    requires
        0 <= p,
        bool_not_at(ts, p) == Ok::<(BoolExpr, int), ErrorModel>((x, q)),
        is_tok(ts, q, TokenModel::And),
        bool_not_at(ts, q + 1) == Ok::<(BoolExpr, int), ErrorModel>((y, r)),
        !is_tok(ts, r, TokenModel::And),
    ensures
        bool_at(ts, p) == Ok::<(BoolExpr, int), ErrorModel>((BoolExpr::And(Box::new(x), Box::new(y)), r)),
        is_tok(ts, p - 1, TokenModel::Not) && !is_tok(ts, q, TokenModel::And) ==> bool_at(ts, p - 1)
            == Ok::<(BoolExpr, int), ErrorModel>((BoolExpr::Not(Box::new(x)), q)),
{
    lemma_progress(ts, p);
    lemma_progress(ts, q + 1);
    let c = BoolExpr::And(Box::new(x), Box::new(y));
    assert(bool_and_rest(ts, c, r) == Ok::<(BoolExpr, int), ErrorModel>((c, r)));
    if is_tok(ts, p - 1, TokenModel::Not) {
        let nx = BoolExpr::Not(Box::new(x));
        assert(bool_not_at(ts, p - 1) == Ok::<(BoolExpr, int), ErrorModel>((nx, q)));
    }
}

/// A recursive-descent parser over a list of MiniImp tokens.
pub struct Parser {
    tokens: Vec<Token>,
    position: usize,
}

impl Parser {
    /// The tokens being parsed.
    pub closed spec fn token_seq(&self) -> Seq<Token> {
        self.tokens@
    }

    /// The position of the next token to read.
    pub closed spec fn pos(&self) -> int {
        self.position as int
    }

    /// A parse from `before` to `after` gave `r`, as `expected` says, and
    /// moved forward when it succeeded.
    pub open spec fn outcome<T>(before: Parser, after: Parser, r: Result<T, EvalError>, expected: Parsed<T>) -> bool {
        &&& after.token_seq() == before.token_seq()
        &&& match r {
            Ok(v) => {
                &&& expected == Ok::<(T, int), ErrorModel>((v, after.pos()))
                &&& before.pos() < after.pos() <= after.token_seq().len()
            },
            Err(e) => expected == Err::<(T, int), ErrorModel>(e@),
        }
    }

    /// A parser at the first of `tokens`.
    pub fn new(tokens: Vec<Token>) -> (r: Parser)
        ensures
            r.token_seq() == tokens@,
            r.pos() == 0,
    {
        Parser { tokens, position: 0 }
    }

    /// The current token, if any.
    fn peek(&self) -> (r: Option<&Token>)
        ensures
            match r {
                Some(t) => self.position < self.tokens@.len() && *t == self.tokens@[self.position as int],
                None => self.position >= self.tokens@.len(),
            },
    {
        if self.position < self.tokens.len() {
            Some(&self.tokens[self.position])
        } else {
            None
        }
    }

    /// Reads the current token, if any.
    fn advance(&mut self) -> (r: Option<Token>)
        ensures
            final(self).tokens@ == old(self).tokens@,
            match r {
                Some(t) => {
                    &&& old(self).position < old(self).tokens@.len()
                    &&& t == old(self).tokens@[old(self).position as int]
                    &&& final(self).position == old(self).position + 1
                },
                None => {
                    &&& old(self).position >= old(self).tokens@.len()
                    &&& final(self).position == old(self).position
                },
            },
    {
        if self.position < self.tokens.len() {
            let token = self.tokens[self.position].copy();
            self.position = self.position + 1;
            Some(token)
        } else {
            None
        }
    }

    /// Is the current token `expected`?
    fn check(&self, expected: &Token) -> (r: bool)
        ensures
            r == is_tok(self.tokens@, self.position as int, expected@),
    {
        match self.peek() {
            Some(token) => token.same(expected),
            None => false,
        }
    }

    /// Reads the token `expected`, or fails.
    fn expect(&mut self, expected: Token) -> (r: Result<(), EvalError>)
        ensures
            final(self).tokens@ == old(self).tokens@,
            match r {
                Ok(_) => expect_at(old(self).tokens@, old(self).position as int, expected@)
                    == Ok::<int, ErrorModel>(final(self).position as int),
                Err(e) => expect_at(old(self).tokens@, old(self).position as int, expected@)
                    == Err::<int, ErrorModel>(e@),
            },
    {
        match self.advance() {
            Some(token) => {
                if token.same(&expected) {
                    Ok(())
                } else {
                    let mut m = text("expected token ");
                    expected.push_debug_text(&mut m);
                    push_text(&mut m, ", but found ");
                    token.push_debug_text(&mut m);
                    Err(EvalError::ParseError(m))
                }
            },
            None => Err(EvalError::UnexpectedEndOfInput),
        }
    }

    /// Parses simple commands joined by `;`, grouped to the left.
    pub fn parse_cmd(&mut self) -> (r: Result<Cmd, EvalError>)
        ensures
            Self::outcome(*old(self), *final(self), r, cmd_at(old(self).token_seq(), old(self).pos())),
        decreases old(self).token_seq().len() - old(self).pos(), 3int,
    {
        let ghost ts = self.tokens@;
        let ghost pos0 = self.position as int;
        let mut cmd = match self.parse_simple_cmd() {
            Ok(c) => c,
            Err(e) => return Err(e),
        };
        while self.check(&Token::Semicolon)
            invariant
                ts == old(self).tokens@,
                pos0 == old(self).position,
                self.tokens@ == ts,
                pos0 < self.position <= ts.len(),
                cmd_at(ts, pos0) == cmd_rest(ts, cmd, self.position as int),
            decreases ts.len() - self.position,
        {
            let ghost p = self.position as int;
            self.advance();
            let next_cmd = match self.parse_simple_cmd() {
                Ok(c) => c,
                Err(e) => return Err(e),
            };
            assert(cmd_rest(ts, cmd, p) == cmd_rest(ts, Cmd::Sequence(Box::new(cmd), Box::new(next_cmd)), self.position as int));
            cmd = Cmd::Sequence(Box::new(cmd), Box::new(next_cmd));
        }
        Ok(cmd)
    }

    /// Parses a command that no `;` splits.
    fn parse_simple_cmd(&mut self) -> (r: Result<Cmd, EvalError>)
        ensures
            Self::outcome(*old(self), *final(self), r, simple_cmd_at(old(self).tokens@, old(self).position as int)),
        decreases old(self).tokens@.len() - old(self).position, 1int,
    {
        match self.peek() {
            Some(Token::Skip) => {
                self.advance();
                Ok(Cmd::Skip)
            },
            Some(Token::If) => {
                self.advance();
                let condition = match self.parse_bool_expr() {
                    Ok(b) => b,
                    Err(e) => return Err(e),
                };
                if let Err(e) = self.expect(Token::Then) {
                    return Err(e);
                }
                let then_branch = match self.parse_cmd() {
                    Ok(c) => c,
                    Err(e) => return Err(e),
                };
                if let Err(e) = self.expect(Token::Else) {
                    return Err(e);
                }
                let else_branch = match self.parse_cmd() {
                    Ok(c) => c,
                    Err(e) => return Err(e),
                };
                Ok(Cmd::If(condition, Box::new(then_branch), Box::new(else_branch)))
            },
            Some(Token::While) => {
                self.advance();
                let condition = match self.parse_bool_expr() {
                    Ok(b) => b,
                    Err(e) => return Err(e),
                };
                if let Err(e) = self.expect(Token::Do) {
                    return Err(e);
                }
                let body = match self.parse_cmd() {
                    Ok(c) => c,
                    Err(e) => return Err(e),
                };
                Ok(Cmd::While(condition, Box::new(body)))
            },
            Some(Token::LParen) => {
                self.advance();
                let cmd = match self.parse_cmd() {
                    Ok(c) => c,
                    Err(e) => return Err(e),
                };
                match self.expect(Token::RParen) {
                    Ok(_) => Ok(cmd),
                    Err(e) => Err(e),
                }
            },
            Some(Token::Identifier(_)) => self.parse_assignment(),
            Some(token) => {
                let mut m = text("unexpected token ");
                token.push_debug_text(&mut m);
                push_text(&mut m, " while parsing a command");
                Err(EvalError::ParseError(m))
            },
            None => Err(EvalError::UnexpectedEndOfInput),
        }
    }

    /// Parses an assignment `x := e`.
    fn parse_assignment(&mut self) -> (r: Result<Cmd, EvalError>)
        ensures
            Self::outcome(*old(self), *final(self), r, assignment_at(old(self).tokens@, old(self).position as int)),
        decreases old(self).tokens@.len() - old(self).position, 0int,
    {
        let variable_name = match self.advance() {
            Some(Token::Identifier(name)) => name,
            Some(token) => {
                let mut m = text("expected an identifier in assignment, but found ");
                token.push_debug_text(&mut m);
                return Err(EvalError::ParseError(m));
            },
            None => return Err(EvalError::UnexpectedEndOfInput),
        };
        if let Err(e) = self.expect(Token::Assign) {
            return Err(e);
        }
        match self.parse_expr() {
            Ok(expr) => Ok(Cmd::Assign(variable_name, expr)),
            Err(e) => Err(e),
        }
    }

    /// Parses an arithmetic expression.
    pub fn parse_expr(&mut self) -> (r: Result<Expr, EvalError>)
        ensures
            Self::outcome(*old(self), *final(self), r, expr_at(old(self).token_seq(), old(self).pos())),
        decreases old(self).token_seq().len() - old(self).pos(), 5int,
    {
        self.parse_add_sub()
    }

    /// Parses products joined by `+` and `-`, grouped to the left.
    fn parse_add_sub(&mut self) -> (r: Result<Expr, EvalError>)
        ensures
            Self::outcome(*old(self), *final(self), r, sum_at(old(self).tokens@, old(self).position as int)),
        decreases old(self).tokens@.len() - old(self).position, 4int,
    {
        let ghost ts = self.tokens@;
        let ghost pos0 = self.position as int;
        let mut expr = match self.parse_mul() {
            Ok(e) => e,
            Err(e) => return Err(e),
        };
        while self.check(&Token::Plus) || self.check(&Token::Minus)
            invariant
                ts == old(self).tokens@,
                pos0 == old(self).position,
                self.tokens@ == ts,
                pos0 < self.position <= ts.len(),
                sum_at(ts, pos0) == sum_rest(ts, expr, self.position as int),
            decreases ts.len() - self.position,
        {
            let ghost p = self.position as int;
            let plus = self.check(&Token::Plus);
            self.advance();
            let right = match self.parse_mul() {
                Ok(e) => e,
                Err(e) => return Err(e),
            };
            if plus {
                assert(sum_rest(ts, expr, p) == sum_rest(ts, Expr::Add(Box::new(expr), Box::new(right)), self.position as int));
                expr = Expr::Add(Box::new(expr), Box::new(right));
            } else {
                assert(sum_rest(ts, expr, p) == sum_rest(ts, Expr::Sub(Box::new(expr), Box::new(right)), self.position as int));
                expr = Expr::Sub(Box::new(expr), Box::new(right));
            }
        }
        Ok(expr)
    }

    /// Parses atoms joined by `*`, grouped to the left.
    fn parse_mul(&mut self) -> (r: Result<Expr, EvalError>)
        ensures
            Self::outcome(*old(self), *final(self), r, product_at(old(self).tokens@, old(self).position as int)),
        decreases old(self).tokens@.len() - old(self).position, 2int,
    {
        let ghost ts = self.tokens@;
        let ghost pos0 = self.position as int;
        let mut expr = match self.parse_primary() {
            Ok(e) => e,
            Err(e) => return Err(e),
        };
        while self.check(&Token::Star)
            invariant
                ts == old(self).tokens@,
                pos0 == old(self).position,
                self.tokens@ == ts,
                pos0 < self.position <= ts.len(),
                product_at(ts, pos0) == product_rest(ts, expr, self.position as int),
            decreases ts.len() - self.position,
        {
            let ghost p = self.position as int;
            self.advance();
            let right = match self.parse_primary() {
                Ok(e) => e,
                Err(e) => return Err(e),
            };
            assert(product_rest(ts, expr, p) == product_rest(ts, Expr::Mul(Box::new(expr), Box::new(right)), self.position as int));
            expr = Expr::Mul(Box::new(expr), Box::new(right));
        }
        Ok(expr)
    }

    /// Parses a number, a name or a parenthesised expression.
    fn parse_primary(&mut self) -> (r: Result<Expr, EvalError>)
        ensures
            Self::outcome(*old(self), *final(self), r, primary_at(old(self).tokens@, old(self).position as int)),
        decreases old(self).tokens@.len() - old(self).position, 0int,
    {
        match self.advance() {
            Some(Token::Number(value)) => Ok(Expr::Int(value)),
            Some(Token::Identifier(name)) => Ok(Expr::Var(name)),
            Some(Token::LParen) => {
                let expr = match self.parse_expr() {
                    Ok(e) => e,
                    Err(e) => return Err(e),
                };
                match self.expect(Token::RParen) {
                    Ok(_) => Ok(expr),
                    Err(e) => Err(e),
                }
            },
            Some(token) => {
                let mut m = text("unexpected token ");
                token.push_debug_text(&mut m);
                push_text(&mut m, " while parsing an arithmetic expression");
                Err(EvalError::ParseError(m))
            },
            None => Err(EvalError::UnexpectedEndOfInput),
        }
    }

    /// Parses a boolean expression.
    pub fn parse_bool_expr(&mut self) -> (r: Result<BoolExpr, EvalError>)
        ensures
            Self::outcome(*old(self), *final(self), r, bool_at(old(self).token_seq(), old(self).pos())),
        decreases old(self).token_seq().len() - old(self).pos(), 4int,
    {
        self.parse_bool_and()
    }

    /// Parses negations joined by `and`, grouped to the left.
    fn parse_bool_and(&mut self) -> (r: Result<BoolExpr, EvalError>)
        ensures
            Self::outcome(*old(self), *final(self), r, bool_and_at(old(self).tokens@, old(self).position as int)),
        decreases old(self).tokens@.len() - old(self).position, 3int,
    {
        let ghost ts = self.tokens@;
        let ghost pos0 = self.position as int;
        let mut expr = match self.parse_bool_not() {
            Ok(b) => b,
            Err(e) => return Err(e),
        };
        while self.check(&Token::And)
            invariant
                ts == old(self).tokens@,
                pos0 == old(self).position,
                self.tokens@ == ts,
                pos0 < self.position <= ts.len(),
                bool_and_at(ts, pos0) == bool_and_rest(ts, expr, self.position as int),
            decreases ts.len() - self.position,
        {
            let ghost p = self.position as int;
            self.advance();
            let right = match self.parse_bool_not() {
                Ok(b) => b,
                Err(e) => return Err(e),
            };
            assert(bool_and_rest(ts, expr, p) == bool_and_rest(ts, BoolExpr::And(Box::new(expr), Box::new(right)), self.position as int));
            expr = BoolExpr::And(Box::new(expr), Box::new(right));
        }
        Ok(expr)
    }

    /// Parses a boolean atom under any number of `not`.
    fn parse_bool_not(&mut self) -> (r: Result<BoolExpr, EvalError>)
        ensures
            Self::outcome(*old(self), *final(self), r, bool_not_at(old(self).tokens@, old(self).position as int)),
        decreases old(self).tokens@.len() - old(self).position, 1int,
    {
        if self.check(&Token::Not) {
            self.advance();
            match self.parse_bool_not() {
                Ok(inner) => Ok(BoolExpr::Not(Box::new(inner))),
                Err(e) => Err(e),
            }
        } else {
            self.parse_bool_primary()
        }
    }

    /// Parses `true`, `false`, a parenthesised boolean expression or a
    /// comparison `a < b`.
    fn parse_bool_primary(&mut self) -> (r: Result<BoolExpr, EvalError>)
        ensures
            Self::outcome(*old(self), *final(self), r, bool_primary_at(old(self).tokens@, old(self).position as int)),
        decreases old(self).tokens@.len() - old(self).position, 0int,
    {
        match self.peek() {
            Some(Token::True) => {
                self.advance();
                Ok(BoolExpr::True)
            },
            Some(Token::False) => {
                self.advance();
                Ok(BoolExpr::False)
            },
            Some(Token::LParen) => {
                self.advance();
                let expr = match self.parse_bool_expr() {
                    Ok(b) => b,
                    Err(e) => return Err(e),
                };
                match self.expect(Token::RParen) {
                    Ok(_) => Ok(expr),
                    Err(e) => Err(e),
                }
            },
            _ => {
                let left = match self.parse_expr() {
                    Ok(e) => e,
                    Err(e) => return Err(e),
                };
                if self.check(&Token::Less) {
                    self.advance();
                    match self.parse_expr() {
                        Ok(right) => Ok(BoolExpr::Less(Box::new(left), Box::new(right))),
                        Err(e) => Err(e),
                    }
                } else {
                    Err(EvalError::ParseError(text("expected a boolean expression or a comparison using '<'")))
                }
            },
        }
    }

    /// Parses a command that must reach the last token.
    pub fn finish(self) -> (r: Result<Cmd, EvalError>)
        ensures
            result_view(r) == finish_at(self.token_seq(), self.pos()),
    {
        let mut parser = self;
        let cmd = match parser.parse_cmd() {
            Ok(c) => c,
            Err(e) => return Err(e),
        };
        match parser.peek() {
            Some(token) => {
                let mut m = text("unexpected extra token Some(");
                token.push_debug_text(&mut m);
                push_text(&mut m, ") after the end of the command");
                Err(EvalError::ParseError(m))
            },
            None => Ok(cmd),
        }
    }
}

/// Parses a whole token list into a command.
pub fn parse_tokens(tokens: Vec<Token>) -> (r: Result<Cmd, EvalError>)
    ensures
        result_view(r) == parse_spec(tokens@),
{
    let parser = Parser::new(tokens);
    parser.finish()
}

} // verus!
