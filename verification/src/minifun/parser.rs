//! The MiniFun parser: tokens to a term, by recursive descent.
//!
//! The grammar, from the loosest binding to the tightest:
//! `if`/`let`/`letfun`/`fun` forms, then `&&`, `<`, `+` and `-`, `*`,
//! application, `~`, and the atoms (numbers, `true`, `false`, names and
//! parenthesised terms). Every binary operator, and `->` in types, groups
//! to the left.
use vstd::prelude::*;
use crate::common::error::{EvalError, ErrorModel, result_view};
use crate::common::text::{text, push_text};
use crate::minifun::ast::Term;
use crate::minifun::lexer::{Token, TokenModel, token_text};
use crate::minifun::types::Type;

verus! {

/// What parsing from a position gives: the value and the position after it,
/// or the error.
pub type Parsed<T> = Result<(T, int), ErrorModel>;

/// Is the token at `pos` the given one?
pub open spec fn is_tok(ts: Seq<Token>, pos: int, t: TokenModel) -> bool {
    0 <= pos < ts.len() && ts[pos]@ == t
}

/// Reading the token `expected` at `pos`: the position after it, or the error.
pub open spec fn expect_at(ts: Seq<Token>, pos: int, expected: TokenModel) -> Result<int, ErrorModel> {
    if 0 <= pos < ts.len() {
        if ts[pos]@ == expected {
            Ok(pos + 1)
        } else {
            Err(ErrorModel::ParseError(
                "expected token "@ + token_text(expected) + ", but found "@ + token_text(ts[pos]@),
            ))
        }
    } else {
        Err(ErrorModel::UnexpectedEndOfInput)
    }
}

/// Reading a name at `pos`; `context` says what the name is for.
pub open spec fn name_at(ts: Seq<Token>, pos: int, context: Seq<char>) -> Parsed<String> {
    if 0 <= pos < ts.len() {
        match ts[pos] {
            Token::Identifier(name) => Ok((name, pos + 1)),
            _ => Err(ErrorModel::ParseError(context + ", but found "@ + token_text(ts[pos]@))),
        }
    } else {
        Err(ErrorModel::UnexpectedEndOfInput)
    }
}

/// The result of a branch that parsing never takes. Every successful parse
/// moves forward (the `outcome` that each parsing method ensures says so),
/// so the tests on positions that guard these branches always pass.
pub open spec fn stalled<T>() -> Parsed<T> {
    Err(ErrorModel::UnexpectedEndOfInput)
}

/// A type at `pos`: atomic types joined by `->`, grouped to the left.
pub open spec fn type_at(ts: Seq<Token>, pos: int) -> Parsed<Type>
    decreases ts.len() - pos, 2int,
{
    match atomic_type_at(ts, pos) {
        Ok((t, p)) => if pos < p <= ts.len() { type_rest(ts, t, p) } else { stalled() },
        Err(e) => Err(e),
    }
}

/// The `-> t` parts that follow the type `left` at `pos`.
pub open spec fn type_rest(ts: Seq<Token>, left: Type, pos: int) -> Parsed<Type>
    decreases ts.len() - pos, 1int,
{
    if is_tok(ts, pos, TokenModel::TypeArrow) {
        match atomic_type_at(ts, pos + 1) {
            Ok((right, p)) => if pos < p <= ts.len() {
                type_rest(ts, Type::Fun(Box::new(left), Box::new(right)), p)
            } else {
                stalled()
            },
            Err(e) => Err(e),
        }
    } else {
        Ok((left, pos))
    }
}

/// An atomic type at `pos`: `int`, `bool` or a parenthesised type.
pub open spec fn atomic_type_at(ts: Seq<Token>, pos: int) -> Parsed<Type>
    decreases ts.len() - pos, 0int,
{
    if 0 <= pos < ts.len() {
        match ts[pos]@ {
            TokenModel::TypeInt => Ok((Type::Int, pos + 1)),
            TokenModel::TypeBool => Ok((Type::Bool, pos + 1)),
            TokenModel::LParen => match type_at(ts, pos + 1) {
                Ok((t, p)) => match expect_at(ts, p, TokenModel::RParen) {
                    Ok(q) => Ok((t, q)),
                    Err(e) => Err(e),
                },
                Err(e) => Err(e),
            },
            _ => Err(ErrorModel::ParseError(
                "unexpected token "@ + token_text(ts[pos]@) + " while parsing a type"@,
            )),
        }
    } else {
        Err(ErrorModel::UnexpectedEndOfInput)
    }
}

/// Is the token at `pos` one that can start an atomic term?
pub open spec fn starts_atom(ts: Seq<Token>, pos: int) -> bool {
    0 <= pos < ts.len() && match ts[pos]@ {
        TokenModel::Number(_) | TokenModel::Identifier(_) | TokenModel::True | TokenModel::False
        | TokenModel::LParen => true,
        _ => false,
    }
}

/// A term at `pos`: an `if`, `let`, `letfun` or `fun` form by its first
/// token, else a conjunction.
pub open spec fn term_at(ts: Seq<Token>, pos: int) -> Parsed<Term>
    decreases ts.len() - pos, 20int,
{
    if is_tok(ts, pos, TokenModel::If) {
        if_at(ts, pos)
    } else if is_tok(ts, pos, TokenModel::Let) {
        let_at(ts, pos)
    } else if is_tok(ts, pos, TokenModel::LetFun) {
        letfun_at(ts, pos)
    } else if is_tok(ts, pos, TokenModel::Fun) {
        fun_at(ts, pos)
    } else {
        and_at(ts, pos)
    }
}

/// `if c then t else e` at `pos`.
pub open spec fn if_at(ts: Seq<Token>, pos: int) -> Parsed<Term>
    decreases ts.len() - pos, 19int,
{
    match expect_at(ts, pos, TokenModel::If) {
        Err(e) => Err(e),
        Ok(p1) => match term_at(ts, p1) {
            Err(e) => Err(e),
            Ok((c, p2)) => match expect_at(ts, p2, TokenModel::Then) {
                Err(e) => Err(e),
                Ok(p3) => if pos < p3 <= ts.len() {
                    match term_at(ts, p3) {
                        Err(e) => Err(e),
                        Ok((t, p4)) => match expect_at(ts, p4, TokenModel::Else) {
                            Err(e) => Err(e),
                            Ok(p5) => if pos < p5 <= ts.len() {
                                match term_at(ts, p5) {
                                    Err(e) => Err(e),
                                    Ok((f, p6)) => Ok((Term::If(Box::new(c), Box::new(t), Box::new(f)), p6)),
                                }
                            } else {
                                stalled()
                            },
                        },
                    }
                } else {
                    stalled()
                },
            },
        },
    }
}

/// `let x = v in b` at `pos`.
pub open spec fn let_at(ts: Seq<Token>, pos: int) -> Parsed<Term>
    decreases ts.len() - pos, 19int,
{
    match expect_at(ts, pos, TokenModel::Let) {
        Err(e) => Err(e),
        Ok(p1) => match name_at(ts, p1, "expected an identifier after 'let'"@) {
            Err(e) => Err(e),
            Ok((x, p2)) => match expect_at(ts, p2, TokenModel::Equal) {
                Err(e) => Err(e),
                Ok(p3) => match term_at(ts, p3) {
                    Err(e) => Err(e),
                    Ok((v, p4)) => match expect_at(ts, p4, TokenModel::In) {
                        Err(e) => Err(e),
                        Ok(p5) => if pos < p5 <= ts.len() {
                            match term_at(ts, p5) {
                                Err(e) => Err(e),
                                Ok((b, p6)) => Ok((Term::Let(x, Box::new(v), Box::new(b)), p6)),
                            }
                        } else {
                            stalled()
                        },
                    },
                },
            },
        },
    }
}

/// `letfun f x : t = body in rest` at `pos`.
pub open spec fn letfun_at(ts: Seq<Token>, pos: int) -> Parsed<Term>
    decreases ts.len() - pos, 19int,
{
    match expect_at(ts, pos, TokenModel::LetFun) {
        Err(e) => Err(e),
        Ok(p1) => match name_at(ts, p1, "expected a function name after 'letfun'"@) {
            Err(e) => Err(e),
            Ok((f, p2)) => match name_at(ts, p2, "expected a parameter name in 'letfun'"@) {
                Err(e) => Err(e),
                Ok((x, p3)) => match expect_at(ts, p3, TokenModel::Colon) {
                    Err(e) => Err(e),
                    Ok(p4) => match type_at(ts, p4) {
                        Err(e) => Err(e),
                        Ok((ty, p5)) => match expect_at(ts, p5, TokenModel::Equal) {
                            Err(e) => Err(e),
                            Ok(p6) => if pos < p6 <= ts.len() {
                                match term_at(ts, p6) {
                                    Err(e) => Err(e),
                                    Ok((body, p7)) => match expect_at(ts, p7, TokenModel::In) {
                                        Err(e) => Err(e),
                                        Ok(p8) => if pos < p8 <= ts.len() {
                                            match term_at(ts, p8) {
                                                Err(e) => Err(e),
                                                Ok((rest, p9)) => Ok((
                                                    Term::LetFun(f, x, ty, Box::new(body), Box::new(rest)),
                                                    p9,
                                                )),
                                            }
                                        } else {
                                            stalled()
                                        },
                                    },
                                }
                            } else {
                                stalled()
                            },
                        },
                    },
                },
            },
        },
    }
}

/// `fun x : t => body` at `pos`.
pub open spec fn fun_at(ts: Seq<Token>, pos: int) -> Parsed<Term>
    decreases ts.len() - pos, 19int,
{
    match expect_at(ts, pos, TokenModel::Fun) {
        Err(e) => Err(e),
        Ok(p1) => match name_at(ts, p1, "expected a parameter name after 'fun'"@) {
            Err(e) => Err(e),
            Ok((x, p2)) => match expect_at(ts, p2, TokenModel::Colon) {
                Err(e) => Err(e),
                Ok(p3) => match type_at(ts, p3) {
                    Err(e) => Err(e),
                    Ok((ty, p4)) => match expect_at(ts, p4, TokenModel::Arrow) {
                        Err(e) => Err(e),
                        Ok(p5) => if pos < p5 <= ts.len() {
                            match term_at(ts, p5) {
                                Err(e) => Err(e),
                                Ok((b, p6)) => Ok((Term::Fun(x, ty, Box::new(b)), p6)),
                            }
                        } else {
                            stalled()
                        },
                    },
                },
            },
        },
    }
}

/// Comparisons joined by `&&` at `pos`.
pub open spec fn and_at(ts: Seq<Token>, pos: int) -> Parsed<Term>
    decreases ts.len() - pos, 18int,
{
    match less_at(ts, pos) {
        Ok((t, p)) => if pos < p <= ts.len() { and_rest(ts, t, p) } else { stalled() },
        Err(e) => Err(e),
    }
}

/// The `&& r` parts that follow `left` at `pos`.
pub open spec fn and_rest(ts: Seq<Token>, left: Term, pos: int) -> Parsed<Term>
    decreases ts.len() - pos, 17int,
{
    if is_tok(ts, pos, TokenModel::And) {
        match less_at(ts, pos + 1) {
            Ok((right, p)) => if pos < p <= ts.len() {
                and_rest(ts, Term::And(Box::new(left), Box::new(right)), p)
            } else {
                stalled()
            },
            Err(e) => Err(e),
        }
    } else {
        Ok((left, pos))
    }
}

/// Sums joined by `<` at `pos`.
pub open spec fn less_at(ts: Seq<Token>, pos: int) -> Parsed<Term>
    decreases ts.len() - pos, 16int,
{
    match sum_at(ts, pos) {
        Ok((t, p)) => if pos < p <= ts.len() { less_rest(ts, t, p) } else { stalled() },
        Err(e) => Err(e),
    }
}

/// The `< r` parts that follow `left` at `pos`.
pub open spec fn less_rest(ts: Seq<Token>, left: Term, pos: int) -> Parsed<Term>
    decreases ts.len() - pos, 15int,
{
    if is_tok(ts, pos, TokenModel::Less) {
        match sum_at(ts, pos + 1) {
            Ok((right, p)) => if pos < p <= ts.len() {
                less_rest(ts, Term::Less(Box::new(left), Box::new(right)), p)
            } else {
                stalled()
            },
            Err(e) => Err(e),
        }
    } else {
        Ok((left, pos))
    }
}

/// Products joined by `+` and `-` at `pos`.
pub open spec fn sum_at(ts: Seq<Token>, pos: int) -> Parsed<Term>
    decreases ts.len() - pos, 14int,
{
    match product_at(ts, pos) {
        Ok((t, p)) => if pos < p <= ts.len() { sum_rest(ts, t, p) } else { stalled() },
        Err(e) => Err(e),
    }
}

/// The `+ r` and `- r` parts that follow `left` at `pos`.
pub open spec fn sum_rest(ts: Seq<Token>, left: Term, pos: int) -> Parsed<Term>
    decreases ts.len() - pos, 13int,
{
    if is_tok(ts, pos, TokenModel::Plus) || is_tok(ts, pos, TokenModel::Minus) {
        match product_at(ts, pos + 1) {
            Ok((right, p)) => if pos < p <= ts.len() {
                let joined = if is_tok(ts, pos, TokenModel::Plus) {
                    Term::Add(Box::new(left), Box::new(right))
                } else {
                    Term::Sub(Box::new(left), Box::new(right))
                };
                sum_rest(ts, joined, p)
            } else {
                stalled()
            },
            Err(e) => Err(e),
        }
    } else {
        Ok((left, pos))
    }
}

/// Applications joined by `*` at `pos`.
pub open spec fn product_at(ts: Seq<Token>, pos: int) -> Parsed<Term>
    decreases ts.len() - pos, 12int,
{
    match application_at(ts, pos) {
        Ok((t, p)) => if pos < p <= ts.len() { product_rest(ts, t, p) } else { stalled() },
        Err(e) => Err(e),
    }
}

/// The `* r` parts that follow `left` at `pos`.
pub open spec fn product_rest(ts: Seq<Token>, left: Term, pos: int) -> Parsed<Term>
    decreases ts.len() - pos, 11int,
{
    if is_tok(ts, pos, TokenModel::Star) {
        match application_at(ts, pos + 1) {
            Ok((right, p)) => if pos < p <= ts.len() {
                product_rest(ts, Term::Mul(Box::new(left), Box::new(right)), p)
            } else {
                stalled()
            },
            Err(e) => Err(e),
        }
    } else {
        Ok((left, pos))
    }
}

/// A function applied to the arguments that follow it, at `pos`.
pub open spec fn application_at(ts: Seq<Token>, pos: int) -> Parsed<Term>
    decreases ts.len() - pos, 10int,
{
    match unary_at(ts, pos) {
        Ok((t, p)) => if pos < p <= ts.len() { application_rest(ts, t, p) } else { stalled() },
        Err(e) => Err(e),
    }
}

/// The arguments that `left` is applied to, from `pos`.
pub open spec fn application_rest(ts: Seq<Token>, left: Term, pos: int) -> Parsed<Term>
    decreases ts.len() - pos, 9int,
{
    if starts_atom(ts, pos) {
        match unary_at(ts, pos) {
            Ok((arg, p)) => if pos < p <= ts.len() {
                application_rest(ts, Term::App(Box::new(left), Box::new(arg)), p)
            } else {
                stalled()
            },
            Err(e) => Err(e),
        }
    } else {
        Ok((left, pos))
    }
}

/// An atom under any number of `~`, at `pos`.
pub open spec fn unary_at(ts: Seq<Token>, pos: int) -> Parsed<Term>
    decreases ts.len() - pos, 8int,
{
    if is_tok(ts, pos, TokenModel::Not) {
        match unary_at(ts, pos + 1) {
            Ok((inner, p)) => Ok((Term::Not(Box::new(inner)), p)),
            Err(e) => Err(e),
        }
    } else {
        primary_at(ts, pos)
    }
}

/// An atom at `pos`: a number, `true`, `false`, a name or a parenthesised term.
pub open spec fn primary_at(ts: Seq<Token>, pos: int) -> Parsed<Term>
    decreases ts.len() - pos, 7int,
{
    if 0 <= pos < ts.len() {
        match ts[pos] {
            Token::Number(v) => Ok((Term::Int(v), pos + 1)),
            Token::True => Ok((Term::True, pos + 1)),
            Token::False => Ok((Term::False, pos + 1)),
            Token::Identifier(name) => Ok((Term::Var(name), pos + 1)),
            Token::LParen => match term_at(ts, pos + 1) {
                Ok((t, p)) => match expect_at(ts, p, TokenModel::RParen) {
                    Ok(q) => Ok((t, q)),
                    Err(e) => Err(e),
                },
                Err(e) => Err(e),
            },
            _ => Err(ErrorModel::ParseError(
                "unexpected token "@ + token_text(ts[pos]@) + " while parsing a MiniFun term"@,
            )),
        }
    } else {
        Err(ErrorModel::UnexpectedEndOfInput)
    }
}

/// A whole term from `pos` to the last token.
pub open spec fn finish_at(ts: Seq<Token>, pos: int) -> Result<Term, ErrorModel> {
    match term_at(ts, pos) {
        Ok((t, p)) => if 0 <= p < ts.len() {
            Err(ErrorModel::ParseError(
                "unexpected extra token Some("@ + token_text(ts[p]@) + ") after the end of the term"@,
            ))
        } else {
            Ok(t)
        },
        Err(e) => Err(e),
    }
}

/// The term that a whole token list spells, or the first error.
pub open spec fn parse_spec(ts: Seq<Token>) -> Result<Term, ErrorModel> {
    finish_at(ts, 0)
}

// ---------------------------------------------------------------------------
// Laws of the grammar

/// A parse that succeeds moves forward and stays within the tokens.
pub open spec fn advances<T>(r: Parsed<T>, pos: int, len: int) -> bool {
    r matches Ok((_, p)) ==> pos < p <= len
}

/// A parse of what follows a part ends at or after `pos`, within the tokens.
pub open spec fn stays<T>(r: Parsed<T>, pos: int, len: int) -> bool {
    r matches Ok((_, p)) ==> pos <= p <= len
}

/// Every type parse from `pos` that succeeds moves forward within the tokens.
pub open spec fn type_progress_at(ts: Seq<Token>, pos: int) -> bool {
    let n = ts.len() as int;
    &&& advances(atomic_type_at(ts, pos), pos, n)
    &&& advances(type_at(ts, pos), pos, n)
    &&& (forall|l: Type| #[trigger] stays(type_rest(ts, l, pos), pos, n))
}

/// Every term parse from `pos` that succeeds moves forward within the
/// tokens.
pub open spec fn progress_at(ts: Seq<Token>, pos: int) -> bool {
    let n = ts.len() as int;
    &&& type_progress_at(ts, pos)
    &&& advances(primary_at(ts, pos), pos, n)
    &&& advances(unary_at(ts, pos), pos, n)
    &&& (forall|l: Term| #[trigger] stays(application_rest(ts, l, pos), pos, n))
    &&& advances(application_at(ts, pos), pos, n)
    &&& (forall|l: Term| #[trigger] stays(product_rest(ts, l, pos), pos, n))
    &&& advances(product_at(ts, pos), pos, n)
    &&& (forall|l: Term| #[trigger] stays(sum_rest(ts, l, pos), pos, n))
    &&& advances(sum_at(ts, pos), pos, n)
    &&& (forall|l: Term| #[trigger] stays(less_rest(ts, l, pos), pos, n))
    &&& advances(less_at(ts, pos), pos, n)
    &&& (forall|l: Term| #[trigger] stays(and_rest(ts, l, pos), pos, n))
    &&& advances(and_at(ts, pos), pos, n)
    &&& advances(if_at(ts, pos), pos, n)
    &&& advances(let_at(ts, pos), pos, n)
    &&& advances(letfun_at(ts, pos), pos, n)
    &&& advances(fun_at(ts, pos), pos, n)
    &&& advances(term_at(ts, pos), pos, n)
}

/// Every type parse that succeeds moves forward within the tokens.
pub proof fn lemma_type_progress(ts: Seq<Token>, pos: int)
    requires
        0 <= pos <= ts.len(),
    ensures
        type_progress_at(ts, pos),
    decreases ts.len() - pos,
{
    let n = ts.len() as int;
    assert forall|p: int| pos < p <= n implies #[trigger] type_progress_at(ts, p) by {
        lemma_type_progress(ts, p);
    }
    if pos < n {
        assert(type_progress_at(ts, pos + 1));
    }
    assert(advances(atomic_type_at(ts, pos), pos, n));
    assert forall|l: Type| #[trigger] stays(type_rest(ts, l, pos), pos, n) by {
        if is_tok(ts, pos, TokenModel::TypeArrow) {
            if let Ok((right, p)) = atomic_type_at(ts, pos + 1) {
                if pos < p <= n {
                    assert(type_progress_at(ts, p));
                    assert(stays(type_rest(ts, Type::Fun(Box::new(l), Box::new(right)), p), p, n));
                }
            }
        }
    }
    if let Ok((t, p)) = atomic_type_at(ts, pos) {
        assert(type_progress_at(ts, p));
        assert(stays(type_rest(ts, t, p), p, n));
    }
}

/// The binary levels of terms at `pos` move forward, given that every
/// parse after `pos` does and that an atom under `~` at `pos` does.
proof fn lemma_binary_progress(ts: Seq<Token>, pos: int)
    requires
        0 <= pos <= ts.len(),
        forall|p: int| pos < p <= ts.len() ==> #[trigger] progress_at(ts, p),
        advances(unary_at(ts, pos), pos, ts.len() as int),
    ensures
        forall|l: Term| #[trigger] stays(application_rest(ts, l, pos), pos, ts.len() as int),
        advances(application_at(ts, pos), pos, ts.len() as int),
        forall|l: Term| #[trigger] stays(product_rest(ts, l, pos), pos, ts.len() as int),
        advances(product_at(ts, pos), pos, ts.len() as int),
        forall|l: Term| #[trigger] stays(sum_rest(ts, l, pos), pos, ts.len() as int),
        advances(sum_at(ts, pos), pos, ts.len() as int),
        forall|l: Term| #[trigger] stays(less_rest(ts, l, pos), pos, ts.len() as int),
        advances(less_at(ts, pos), pos, ts.len() as int),
        forall|l: Term| #[trigger] stays(and_rest(ts, l, pos), pos, ts.len() as int),
        advances(and_at(ts, pos), pos, ts.len() as int),
{
    let n = ts.len() as int;
    if pos < n {
        assert(progress_at(ts, pos + 1));
    }
    assert forall|l: Term| #[trigger] stays(application_rest(ts, l, pos), pos, n) by {
        if starts_atom(ts, pos) {
            if let Ok((arg, p)) = unary_at(ts, pos) {
                if pos < p <= n {
                    assert(progress_at(ts, p));
                    assert(stays(application_rest(ts, Term::App(Box::new(l), Box::new(arg)), p), p, n));
                }
            }
        }
    }
    if let Ok((t, p)) = unary_at(ts, pos) {
        assert(progress_at(ts, p));
        assert(stays(application_rest(ts, t, p), p, n));
    }
    assert(advances(application_at(ts, pos), pos, n));
    assert forall|l: Term| #[trigger] stays(product_rest(ts, l, pos), pos, n) by {
        if is_tok(ts, pos, TokenModel::Star) {
            if let Ok((right, p)) = application_at(ts, pos + 1) {
                if pos < p <= n {
                    assert(progress_at(ts, p));
                    assert(stays(product_rest(ts, Term::Mul(Box::new(l), Box::new(right)), p), p, n));
                }
            }
        }
    }
    if let Ok((t, p)) = application_at(ts, pos) {
        assert(progress_at(ts, p));
        assert(stays(product_rest(ts, t, p), p, n));
    }
    assert(advances(product_at(ts, pos), pos, n));
    assert forall|l: Term| #[trigger] stays(sum_rest(ts, l, pos), pos, n) by {
        if is_tok(ts, pos, TokenModel::Plus) || is_tok(ts, pos, TokenModel::Minus) {
            if let Ok((right, p)) = product_at(ts, pos + 1) {
                if pos < p <= n {
                    assert(progress_at(ts, p));
                    let joined = if is_tok(ts, pos, TokenModel::Plus) {
                        Term::Add(Box::new(l), Box::new(right))
                    } else {
                        Term::Sub(Box::new(l), Box::new(right))
                    };
                    assert(stays(sum_rest(ts, joined, p), p, n));
                }
            }
        }
    }
    if let Ok((t, p)) = product_at(ts, pos) {
        assert(progress_at(ts, p));
        assert(stays(sum_rest(ts, t, p), p, n));
    }
    assert(advances(sum_at(ts, pos), pos, n));
    assert forall|l: Term| #[trigger] stays(less_rest(ts, l, pos), pos, n) by {
        if is_tok(ts, pos, TokenModel::Less) {
            if let Ok((right, p)) = sum_at(ts, pos + 1) {
                if pos < p <= n {
                    assert(progress_at(ts, p));
                    assert(stays(less_rest(ts, Term::Less(Box::new(l), Box::new(right)), p), p, n));
                }
            }
        }
    }
    if let Ok((t, p)) = sum_at(ts, pos) {
        assert(progress_at(ts, p));
        assert(stays(less_rest(ts, t, p), p, n));
    }
    assert(advances(less_at(ts, pos), pos, n));
    assert forall|l: Term| #[trigger] stays(and_rest(ts, l, pos), pos, n) by {
        if is_tok(ts, pos, TokenModel::And) {
            if let Ok((right, p)) = less_at(ts, pos + 1) {
                if pos < p <= n {
                    assert(progress_at(ts, p));
                    assert(stays(and_rest(ts, Term::And(Box::new(l), Box::new(right)), p), p, n));
                }
            }
        }
    }
    if let Ok((t, p)) = less_at(ts, pos) {
        assert(progress_at(ts, p));
        assert(stays(and_rest(ts, t, p), p, n));
    }
    assert(advances(and_at(ts, pos), pos, n));
}

/// The keyword forms at `pos` move forward, given that every parse after
/// `pos` does.
proof fn lemma_form_progress(ts: Seq<Token>, pos: int)
    requires
        0 <= pos <= ts.len(),
        forall|p: int| pos < p <= ts.len() ==> #[trigger] progress_at(ts, p),
    ensures
        advances(if_at(ts, pos), pos, ts.len() as int),
        advances(let_at(ts, pos), pos, ts.len() as int),
        advances(letfun_at(ts, pos), pos, ts.len() as int),
        advances(fun_at(ts, pos), pos, ts.len() as int),
{
    let n = ts.len() as int;
    if pos < n {
        assert(progress_at(ts, pos + 1));
        if let Ok(p1) = expect_at(ts, pos, TokenModel::If) {
            if let Ok((c, p2)) = term_at(ts, p1) {
                if let Ok(p3) = expect_at(ts, p2, TokenModel::Then) {
                    if pos < p3 <= n {
                        assert(progress_at(ts, p3));
                        if let Ok((t, p4)) = term_at(ts, p3) {
                            if let Ok(p5) = expect_at(ts, p4, TokenModel::Else) {
                                if pos < p5 <= n {
                                    assert(progress_at(ts, p5));
                                }
                            }
                        }
                    }
                }
            }
        }
        if let Ok(p1) = expect_at(ts, pos, TokenModel::Let) {
            if let Ok((x, p2)) = name_at(ts, p1, "expected an identifier after 'let'"@) {
                if let Ok(p3) = expect_at(ts, p2, TokenModel::Equal) {
                    if p3 <= n {
                        assert(progress_at(ts, p3));
                    }
                    if let Ok((v, p4)) = term_at(ts, p3) {
                        if let Ok(p5) = expect_at(ts, p4, TokenModel::In) {
                            if pos < p5 <= n {
                                assert(progress_at(ts, p5));
                            }
                        }
                    }
                }
            }
        }
        if let Ok(p1) = expect_at(ts, pos, TokenModel::LetFun) {
            if let Ok((f, p2)) = name_at(ts, p1, "expected a function name after 'letfun'"@) {
                if let Ok((x, p3)) = name_at(ts, p2, "expected a parameter name in 'letfun'"@) {
                    if let Ok(p4) = expect_at(ts, p3, TokenModel::Colon) {
                        if p4 <= n {
                            assert(progress_at(ts, p4));
                        }
                        if let Ok((ty, p5)) = type_at(ts, p4) {
                            if let Ok(p6) = expect_at(ts, p5, TokenModel::Equal) {
                                if pos < p6 <= n {
                                    assert(progress_at(ts, p6));
                                    if let Ok((body, p7)) = term_at(ts, p6) {
                                        if let Ok(p8) = expect_at(ts, p7, TokenModel::In) {
                                            if pos < p8 <= n {
                                                assert(progress_at(ts, p8));
                                            }
                                        }
                                    }
                                }
                            }
                        }
                    }
                }
            }
        }
        if let Ok(p1) = expect_at(ts, pos, TokenModel::Fun) {
            if let Ok((x, p2)) = name_at(ts, p1, "expected a parameter name after 'fun'"@) {
                if let Ok(p3) = expect_at(ts, p2, TokenModel::Colon) {
                    if p3 <= n {
                        assert(progress_at(ts, p3));
                    }
                    if let Ok((ty, p4)) = type_at(ts, p3) {
                        if let Ok(p5) = expect_at(ts, p4, TokenModel::Arrow) {
                            if pos < p5 <= n {
                                assert(progress_at(ts, p5));
                            }
                        }
                    }
                }
            }
        }
    }
}

/// Every parse that succeeds moves forward within the tokens.
pub proof fn lemma_progress(ts: Seq<Token>, pos: int)
    requires
        0 <= pos <= ts.len(),
    ensures
        progress_at(ts, pos),
    decreases ts.len() - pos,
{
    let n = ts.len() as int;
    assert forall|p: int| pos < p <= n implies #[trigger] progress_at(ts, p) by {
        lemma_progress(ts, p);
    }
    lemma_type_progress(ts, pos);
    if pos < n {
        assert(progress_at(ts, pos + 1));
    }
    assert(advances(primary_at(ts, pos), pos, n));
    assert(advances(unary_at(ts, pos), pos, n));
    lemma_binary_progress(ts, pos);
    lemma_form_progress(ts, pos);
    assert(advances(term_at(ts, pos), pos, n));
}

/// Where a term that is not a keyword form starts, `a && b`, with `a` and
/// `b` comparisons, is the conjunction of `a` and `b`.
pub proof fn lemma_conjunction(ts: Seq<Token>, p: int, a: Term, q: int, b: Term, r: int)
    requires
        0 <= p,
        less_at(ts, p) == Ok::<(Term, int), ErrorModel>((a, q)),
        is_tok(ts, q, TokenModel::And),
        less_at(ts, q + 1) == Ok::<(Term, int), ErrorModel>((b, r)),
        !is_tok(ts, r, TokenModel::And),
    ensures
        and_at(ts, p) == Ok::<(Term, int), ErrorModel>((Term::And(Box::new(a), Box::new(b)), r)),
{
    lemma_progress(ts, p);
    lemma_progress(ts, q + 1);
    let c = Term::And(Box::new(a), Box::new(b));
    assert(and_rest(ts, c, r) == Ok::<(Term, int), ErrorModel>((c, r)));
}

/// The operands of `<` are whole sums: for sums `a` and `b`, `a < b` (not
/// followed by another `<` or by `&&`) is the comparison of `a` with `b`,
/// and so is the term it starts unless a keyword starts it. In particular
/// `x < y + 1` compares `x` with `y + 1`.
pub proof fn lemma_comparison_of_sums(ts: Seq<Token>, p: int, a: Term, q: int, b: Term, r: int)
    requires
        0 <= p,
        sum_at(ts, p) == Ok::<(Term, int), ErrorModel>((a, q)),
        is_tok(ts, q, TokenModel::Less),
        sum_at(ts, q + 1) == Ok::<(Term, int), ErrorModel>((b, r)),
        !is_tok(ts, r, TokenModel::Less),
        !is_tok(ts, r, TokenModel::And),
    ensures
        less_at(ts, p) == Ok::<(Term, int), ErrorModel>((Term::Less(Box::new(a), Box::new(b)), r)),
        and_at(ts, p) == Ok::<(Term, int), ErrorModel>((Term::Less(Box::new(a), Box::new(b)), r)),
        !is_tok(ts, p, TokenModel::If) && !is_tok(ts, p, TokenModel::Let) && !is_tok(ts, p, TokenModel::LetFun)
            && !is_tok(ts, p, TokenModel::Fun) ==> term_at(ts, p)
            == Ok::<(Term, int), ErrorModel>((Term::Less(Box::new(a), Box::new(b)), r)),
{
    lemma_progress(ts, p);
    lemma_progress(ts, q + 1);
    let c = Term::Less(Box::new(a), Box::new(b));
    assert(less_rest(ts, c, r) == Ok::<(Term, int), ErrorModel>((c, r)));
    assert(less_at(ts, p) == Ok::<(Term, int), ErrorModel>((c, r)));
    assert(and_rest(ts, c, r) == Ok::<(Term, int), ErrorModel>((c, r)));
}

/// The operands of `+` and `-` are whole products: `a + b` and `a - b`,
/// with `a` and `b` products (not followed by another `+` or `-`), are the
/// sum and the difference of `a` and `b`.
pub proof fn lemma_sum_of_products(ts: Seq<Token>, p: int, a: Term, q: int, b: Term, r: int)
    requires
        0 <= p,
        product_at(ts, p) == Ok::<(Term, int), ErrorModel>((a, q)),
        is_tok(ts, q, TokenModel::Plus) || is_tok(ts, q, TokenModel::Minus),
        product_at(ts, q + 1) == Ok::<(Term, int), ErrorModel>((b, r)),
        !is_tok(ts, r, TokenModel::Plus),
        !is_tok(ts, r, TokenModel::Minus),
    ensures
        sum_at(ts, p) == Ok::<(Term, int), ErrorModel>((
            if is_tok(ts, q, TokenModel::Plus) { Term::Add(Box::new(a), Box::new(b)) } else { Term::Sub(Box::new(a), Box::new(b)) },
            r,
        )),
{
    lemma_progress(ts, p);
    lemma_progress(ts, q + 1);
    let j = if is_tok(ts, q, TokenModel::Plus) { Term::Add(Box::new(a), Box::new(b)) } else { Term::Sub(Box::new(a), Box::new(b)) };
    assert(sum_rest(ts, j, r) == Ok::<(Term, int), ErrorModel>((j, r)));
}

/// The operands of `*` are whole applications: `a * b`, with `a` and `b`
/// applications (not followed by another `*`), is the product of `a` and
/// `b`.
pub proof fn lemma_product_of_applications(ts: Seq<Token>, p: int, a: Term, q: int, b: Term, r: int)
    requires
        0 <= p,
        application_at(ts, p) == Ok::<(Term, int), ErrorModel>((a, q)),
        is_tok(ts, q, TokenModel::Star),
        application_at(ts, q + 1) == Ok::<(Term, int), ErrorModel>((b, r)),
        !is_tok(ts, r, TokenModel::Star),
    ensures
        product_at(ts, p) == Ok::<(Term, int), ErrorModel>((Term::Mul(Box::new(a), Box::new(b)), r)),
{
    lemma_progress(ts, p);
    lemma_progress(ts, q + 1);
    let m = Term::Mul(Box::new(a), Box::new(b));
    assert(product_rest(ts, m, r) == Ok::<(Term, int), ErrorModel>((m, r)));
}

/// Application binds tighter than every operator: a function `f` followed
/// by an atom `x` (and nothing that starts another atom) applies `f` to
/// `x`.
pub proof fn lemma_application(ts: Seq<Token>, p: int, f: Term, q: int, x: Term, r: int)
    requires
        0 <= p,
        unary_at(ts, p) == Ok::<(Term, int), ErrorModel>((f, q)),
        starts_atom(ts, q),
        unary_at(ts, q) == Ok::<(Term, int), ErrorModel>((x, r)),
        !starts_atom(ts, r),
    ensures
        application_at(ts, p) == Ok::<(Term, int), ErrorModel>((Term::App(Box::new(f), Box::new(x)), r)),
{
    lemma_progress(ts, p);
    lemma_progress(ts, q);
    let a = Term::App(Box::new(f), Box::new(x));
    assert(application_rest(ts, a, r) == Ok::<(Term, int), ErrorModel>((a, r)));
}

/// `if c then t else e` takes a whole term for each of its parts.
pub proof fn lemma_if_parts_are_whole_terms(ts: Seq<Token>, p: int, c: Term, q: int, t: Term, r: int, e: Term, s: int)
    requires
        0 <= p,
        is_tok(ts, p, TokenModel::If),
        term_at(ts, p + 1) == Ok::<(Term, int), ErrorModel>((c, q)),
        is_tok(ts, q, TokenModel::Then),
        term_at(ts, q + 1) == Ok::<(Term, int), ErrorModel>((t, r)),
        is_tok(ts, r, TokenModel::Else),
        term_at(ts, r + 1) == Ok::<(Term, int), ErrorModel>((e, s)),
    ensures
        term_at(ts, p) == Ok::<(Term, int), ErrorModel>((Term::If(Box::new(c), Box::new(t), Box::new(e)), s)),
{
    lemma_progress(ts, p + 1);
    lemma_progress(ts, q + 1);
}

/// `fun x : ty => b` takes a whole type after `:` and a whole term after
/// `=>`.
pub proof fn lemma_function_parts(ts: Seq<Token>, p: int, x: String, ty: Type, q: int, b: Term, r: int)
    requires
        0 <= p,
        p + 2 < ts.len(),
        is_tok(ts, p, TokenModel::Fun),
        ts[p + 1] == Token::Identifier(x),
        is_tok(ts, p + 2, TokenModel::Colon),
        type_at(ts, p + 3) == Ok::<(Type, int), ErrorModel>((ty, q)),
        is_tok(ts, q, TokenModel::Arrow),
        term_at(ts, q + 1) == Ok::<(Term, int), ErrorModel>((b, r)),
    ensures
        term_at(ts, p) == Ok::<(Term, int), ErrorModel>((Term::Fun(x, ty, Box::new(b)), r)),
{
    lemma_type_progress(ts, p + 3);
}

/// Function types group to the right of their argument: `a -> b`, with `a`
/// and `b` atomic types (not followed by another `->`), is the type of
/// functions from `a` to `b`.
pub proof fn lemma_function_type(ts: Seq<Token>, p: int, a: Type, q: int, b: Type, r: int)
    requires
        0 <= p,
        atomic_type_at(ts, p) == Ok::<(Type, int), ErrorModel>((a, q)),
        is_tok(ts, q, TokenModel::TypeArrow),
        atomic_type_at(ts, q + 1) == Ok::<(Type, int), ErrorModel>((b, r)),
        !is_tok(ts, r, TokenModel::TypeArrow),
    ensures
        type_at(ts, p) == Ok::<(Type, int), ErrorModel>((Type::Fun(Box::new(a), Box::new(b)), r)),
{
    lemma_type_progress(ts, p);
    lemma_type_progress(ts, q + 1);
    let f = Type::Fun(Box::new(a), Box::new(b));
    assert(type_rest(ts, f, r) == Ok::<(Type, int), ErrorModel>((f, r)));
}

/// A recursive-descent parser over a list of MiniFun tokens.
pub struct Parser {
    tokens: Vec<Token>,
    position: usize,
}

impl Parser {
    /// The tokens being parsed.
    pub closed spec fn token_seq(&self) -> Seq<Token> {
        self.tokens@
    }

    /// The position of the next token to read.
    pub closed spec fn pos(&self) -> int {
        self.position as int
    }

    /// A parse from `before` to `after` gave `r`, as `expected` says, and
    /// moved forward when it succeeded.
    pub open spec fn outcome<T>(before: Parser, after: Parser, r: Result<T, EvalError>, expected: Parsed<T>) -> bool {
        &&& after.token_seq() == before.token_seq()
        &&& match r {
            Ok(v) => {
                &&& expected == Ok::<(T, int), ErrorModel>((v, after.pos()))
                &&& before.pos() < after.pos() <= after.token_seq().len()
            },
            Err(e) => expected == Err::<(T, int), ErrorModel>(e@),
        }
    }

    /// A parser at the first of `tokens`.
    pub fn new(tokens: Vec<Token>) -> (r: Parser)
        ensures
            r.token_seq() == tokens@,
            r.pos() == 0,
    {
        Parser { tokens, position: 0 }
    }

    /// The current token, if any.
    fn peek(&self) -> (r: Option<&Token>)
        ensures
            match r {
                Some(t) => self.position < self.tokens@.len() && *t == self.tokens@[self.position as int],
                None => self.position >= self.tokens@.len(),
            },
    {
        if self.position < self.tokens.len() {
            Some(&self.tokens[self.position])
        } else {
            None
        }
    }

    /// Reads the current token, if any.
    fn advance(&mut self) -> (r: Option<Token>)
        ensures
            final(self).tokens@ == old(self).tokens@,
            match r {
                Some(t) => {
                    &&& old(self).position < old(self).tokens@.len()
                    &&& t == old(self).tokens@[old(self).position as int]
                    &&& final(self).position == old(self).position + 1
                },
                None => {
                    &&& old(self).position >= old(self).tokens@.len()
                    &&& final(self).position == old(self).position
                },
            },
    {
        if self.position < self.tokens.len() {
            let token = self.tokens[self.position].copy();
            self.position = self.position + 1;
            Some(token)
        } else {
            None
        }
    }

    /// Is the current token `expected`?
    fn check(&self, expected: &Token) -> (r: bool)
        ensures
            r == is_tok(self.tokens@, self.position as int, expected@),
    {
        match self.peek() {
            Some(token) => token.same(expected),
            None => false,
        }
    }

    /// Reads the token `expected`, or fails.
    fn expect(&mut self, expected: Token) -> (r: Result<(), EvalError>)
        ensures
            final(self).tokens@ == old(self).tokens@,
            match r {
                Ok(_) => expect_at(old(self).tokens@, old(self).position as int, expected@)
                    == Ok::<int, ErrorModel>(final(self).position as int),
                Err(e) => expect_at(old(self).tokens@, old(self).position as int, expected@)
                    == Err::<int, ErrorModel>(e@),
            },
    {
        match self.advance() {
            Some(token) => {
                if token.same(&expected) {
                    Ok(())
                } else {
                    let mut m = text("expected token ");
                    expected.push_debug_text(&mut m);
                    push_text(&mut m, ", but found ");
                    token.push_debug_text(&mut m);
                    Err(EvalError::ParseError(m))
                }
            },
            None => Err(EvalError::UnexpectedEndOfInput),
        }
    }

    /// Reads a name; `context` says what the name is for.
    fn expect_name(&mut self, context: &str) -> (r: Result<String, EvalError>)
        ensures
            Self::outcome(*old(self), *final(self), r, name_at(old(self).tokens@, old(self).position as int, context@)),
    {
        match self.advance() {
            Some(Token::Identifier(name)) => Ok(name),
            Some(token) => {
                let mut m = text(context);
                push_text(&mut m, ", but found ");
                token.push_debug_text(&mut m);
                Err(EvalError::ParseError(m))
            },
            None => Err(EvalError::UnexpectedEndOfInput),
        }
    }

    /// Parses a term.
    pub fn parse_term(&mut self) -> (r: Result<Term, EvalError>)
        ensures
            Self::outcome(*old(self), *final(self), r, term_at(old(self).token_seq(), old(self).pos())),
        decreases old(self).token_seq().len() - old(self).pos(), 20int,
    {
        match self.peek() {
            Some(Token::If) => self.parse_if(),
            Some(Token::Let) => self.parse_let(),
            Some(Token::LetFun) => self.parse_letfun(),
            Some(Token::Fun) => self.parse_fun(),
            _ => self.parse_and(),
        }
    }

    /// Parses `if c then t else e`.
    fn parse_if(&mut self) -> (r: Result<Term, EvalError>)
        ensures
            Self::outcome(*old(self), *final(self), r, if_at(old(self).tokens@, old(self).position as int)),
        decreases old(self).tokens@.len() - old(self).position, 19int,
    {
        if let Err(e) = self.expect(Token::If) {
            return Err(e);
        }
        let condition = match self.parse_term() {
            Ok(t) => t,
            Err(e) => return Err(e),
        };
        if let Err(e) = self.expect(Token::Then) {
            return Err(e);
        }
        let then_term = match self.parse_term() {
            Ok(t) => t,
            Err(e) => return Err(e),
        };
        if let Err(e) = self.expect(Token::Else) {
            return Err(e);
        }
        let else_term = match self.parse_term() {
            Ok(t) => t,
            Err(e) => return Err(e),
        };
        Ok(Term::If(Box::new(condition), Box::new(then_term), Box::new(else_term)))
    }

    /// Parses `let x = v in b`.
    fn parse_let(&mut self) -> (r: Result<Term, EvalError>)
        ensures
            Self::outcome(*old(self), *final(self), r, let_at(old(self).tokens@, old(self).position as int)),
        decreases old(self).tokens@.len() - old(self).position, 19int,
    {
        if let Err(e) = self.expect(Token::Let) {
            return Err(e);
        }
        let name = match self.expect_name("expected an identifier after 'let'") {
            Ok(x) => x,
            Err(e) => return Err(e),
        };
        if let Err(e) = self.expect(Token::Equal) {
            return Err(e);
        }
        let value_term = match self.parse_term() {
            Ok(t) => t,
            Err(e) => return Err(e),
        };
        if let Err(e) = self.expect(Token::In) {
            return Err(e);
        }
        let body_term = match self.parse_term() {
            Ok(t) => t,
            Err(e) => return Err(e),
        };
        Ok(Term::Let(name, Box::new(value_term), Box::new(body_term)))
    }

    /// Parses `letfun f x : t = body in rest`.
    fn parse_letfun(&mut self) -> (r: Result<Term, EvalError>)
        ensures
            Self::outcome(*old(self), *final(self), r, letfun_at(old(self).tokens@, old(self).position as int)),
        decreases old(self).tokens@.len() - old(self).position, 19int,
    {
        if let Err(e) = self.expect(Token::LetFun) {
            return Err(e);
        }
        let function_name = match self.expect_name("expected a function name after 'letfun'") {
            Ok(x) => x,
            Err(e) => return Err(e),
        };
        let parameter_name = match self.expect_name("expected a parameter name in 'letfun'") {
            Ok(x) => x,
            Err(e) => return Err(e),
        };
        if let Err(e) = self.expect(Token::Colon) {
            return Err(e);
        }
        let function_type = match self.parse_type() {
            Ok(t) => t,
            Err(e) => return Err(e),
        };
        if let Err(e) = self.expect(Token::Equal) {
            return Err(e);
        }
        let function_body = match self.parse_term() {
            Ok(t) => t,
            Err(e) => return Err(e),
        };
        if let Err(e) = self.expect(Token::In) {
            return Err(e);
        }
        let in_term = match self.parse_term() {
            Ok(t) => t,
            Err(e) => return Err(e),
        };
        Ok(Term::LetFun(function_name, parameter_name, function_type, Box::new(function_body), Box::new(in_term)))
    }

    /// Parses `fun x : t => body`.
    fn parse_fun(&mut self) -> (r: Result<Term, EvalError>)
        ensures
            Self::outcome(*old(self), *final(self), r, fun_at(old(self).tokens@, old(self).position as int)),
        decreases old(self).tokens@.len() - old(self).position, 19int,
    {
        if let Err(e) = self.expect(Token::Fun) {
            return Err(e);
        }
        let parameter_name = match self.expect_name("expected a parameter name after 'fun'") {
            Ok(x) => x,
            Err(e) => return Err(e),
        };
        if let Err(e) = self.expect(Token::Colon) {
            return Err(e);
        }
        let parameter_type = match self.parse_type() {
            Ok(t) => t,
            Err(e) => return Err(e),
        };
        if let Err(e) = self.expect(Token::Arrow) {
            return Err(e);
        }
        let body = match self.parse_term() {
            Ok(t) => t,
            Err(e) => return Err(e),
        };
        Ok(Term::Fun(parameter_name, parameter_type, Box::new(body)))
    }

    /// Parses comparisons joined by `&&`, grouped to the left.
    fn parse_and(&mut self) -> (r: Result<Term, EvalError>)
        ensures
            Self::outcome(*old(self), *final(self), r, and_at(old(self).tokens@, old(self).position as int)),
        decreases old(self).tokens@.len() - old(self).position, 18int,
    {
        let ghost ts = self.tokens@;
        let ghost pos0 = self.position as int;
        let mut term = match self.parse_less() {
            Ok(t) => t,
            Err(e) => return Err(e),
        };
        while self.check(&Token::And)
            invariant
                ts == old(self).tokens@,
                pos0 == old(self).position,
                self.tokens@ == ts,
                pos0 < self.position <= ts.len(),
                and_at(ts, pos0) == and_rest(ts, term, self.position as int),
            decreases ts.len() - self.position,
        {
            let ghost p = self.position as int;
            self.advance();
            let right = match self.parse_less() {
                Ok(t) => t,
                Err(e) => return Err(e),
            };
            assert(and_rest(ts, term, p) == and_rest(ts, Term::And(Box::new(term), Box::new(right)), self.position as int));
            term = Term::And(Box::new(term), Box::new(right));
        }
        Ok(term)
    }

    /// Parses sums joined by `<`, grouped to the left.
    fn parse_less(&mut self) -> (r: Result<Term, EvalError>)
        ensures
            Self::outcome(*old(self), *final(self), r, less_at(old(self).tokens@, old(self).position as int)),
        decreases old(self).tokens@.len() - old(self).position, 16int,
    {
        let ghost ts = self.tokens@;
        let ghost pos0 = self.position as int;
        let mut term = match self.parse_add_sub() {
            Ok(t) => t,
            Err(e) => return Err(e),
        };
        while self.check(&Token::Less)
            invariant
                ts == old(self).tokens@,
                pos0 == old(self).position,
                self.tokens@ == ts,
                pos0 < self.position <= ts.len(),
                less_at(ts, pos0) == less_rest(ts, term, self.position as int),
            decreases ts.len() - self.position,
        {
            let ghost p = self.position as int;
            self.advance();
            let right = match self.parse_add_sub() {
                Ok(t) => t,
                Err(e) => return Err(e),
            };
            assert(less_rest(ts, term, p) == less_rest(ts, Term::Less(Box::new(term), Box::new(right)), self.position as int));
            term = Term::Less(Box::new(term), Box::new(right));
        }
        Ok(term)
    }

    /// Parses products joined by `+` and `-`, grouped to the left.
    fn parse_add_sub(&mut self) -> (r: Result<Term, EvalError>)
        ensures
            Self::outcome(*old(self), *final(self), r, sum_at(old(self).tokens@, old(self).position as int)),
        decreases old(self).tokens@.len() - old(self).position, 14int,
    {
        let ghost ts = self.tokens@;
        let ghost pos0 = self.position as int;
        let mut term = match self.parse_mul() {
            Ok(t) => t,
            Err(e) => return Err(e),
        };
        while self.check(&Token::Plus) || self.check(&Token::Minus)
            invariant
                ts == old(self).tokens@,
                pos0 == old(self).position,
                self.tokens@ == ts,
                pos0 < self.position <= ts.len(),
                sum_at(ts, pos0) == sum_rest(ts, term, self.position as int),
            decreases ts.len() - self.position,
        {
            let ghost p = self.position as int;
            let plus = self.check(&Token::Plus);
            self.advance();
            let right = match self.parse_mul() {
                Ok(t) => t,
                Err(e) => return Err(e),
            };
            if plus {
                assert(sum_rest(ts, term, p) == sum_rest(ts, Term::Add(Box::new(term), Box::new(right)), self.position as int));
                term = Term::Add(Box::new(term), Box::new(right));
            } else {
                assert(sum_rest(ts, term, p) == sum_rest(ts, Term::Sub(Box::new(term), Box::new(right)), self.position as int));
                term = Term::Sub(Box::new(term), Box::new(right));
            }
        }
        Ok(term)
    }

    /// Parses applications joined by `*`, grouped to the left.
    fn parse_mul(&mut self) -> (r: Result<Term, EvalError>)
        ensures
            Self::outcome(*old(self), *final(self), r, product_at(old(self).tokens@, old(self).position as int)),
        decreases old(self).tokens@.len() - old(self).position, 12int,
    {
        let ghost ts = self.tokens@;
        let ghost pos0 = self.position as int;
        let mut term = match self.parse_application() {
            Ok(t) => t,
            Err(e) => return Err(e),
        };
        while self.check(&Token::Star)
            invariant
                ts == old(self).tokens@,
                pos0 == old(self).position,
                self.tokens@ == ts,
                pos0 < self.position <= ts.len(),
                product_at(ts, pos0) == product_rest(ts, term, self.position as int),
            decreases ts.len() - self.position,
        {
            let ghost p = self.position as int;
            self.advance();
            let right = match self.parse_application() {
                Ok(t) => t,
                Err(e) => return Err(e),
            };
            assert(product_rest(ts, term, p) == product_rest(ts, Term::Mul(Box::new(term), Box::new(right)), self.position as int));
            term = Term::Mul(Box::new(term), Box::new(right));
        }
        Ok(term)
    }

    /// Parses a function applied to the atoms that follow it: application
    /// binds tighter than every operator but `~`, and groups to the left.
    fn parse_application(&mut self) -> (r: Result<Term, EvalError>)
        ensures
            Self::outcome(*old(self), *final(self), r, application_at(old(self).tokens@, old(self).position as int)),
        decreases old(self).tokens@.len() - old(self).position, 10int,
    {
        let ghost ts = self.tokens@;
        let ghost pos0 = self.position as int;
        let mut term = match self.parse_unary() {
            Ok(t) => t,
            Err(e) => return Err(e),
        };
        while self.starts_atomic_term()
            invariant
                ts == old(self).tokens@,
                pos0 == old(self).position,
                self.tokens@ == ts,
                pos0 < self.position <= ts.len(),
                application_at(ts, pos0) == application_rest(ts, term, self.position as int),
            decreases ts.len() - self.position,
        {
            let ghost p = self.position as int;
            let argument = match self.parse_unary() {
                Ok(t) => t,
                Err(e) => return Err(e),
            };
            assert(application_rest(ts, term, p) == application_rest(ts, Term::App(Box::new(term), Box::new(argument)), self.position as int));
            term = Term::App(Box::new(term), Box::new(argument));
        }
        Ok(term)
    }

    /// Parses an atom under any number of `~`.
    fn parse_unary(&mut self) -> (r: Result<Term, EvalError>)
        ensures
            Self::outcome(*old(self), *final(self), r, unary_at(old(self).tokens@, old(self).position as int)),
        decreases old(self).tokens@.len() - old(self).position, 8int,
    {
        if self.check(&Token::Not) {
            self.advance();
            match self.parse_unary() {
                Ok(inner) => Ok(Term::Not(Box::new(inner))),
                Err(e) => Err(e),
            }
        } else {
            self.parse_primary()
        }
    }

    /// Can the current token start an atom?
    fn starts_atomic_term(&self) -> (r: bool)
        ensures
            r == starts_atom(self.tokens@, self.position as int),
    {
        match self.peek() {
            Some(Token::Number(_)) | Some(Token::Identifier(_)) | Some(Token::True)
            | Some(Token::False) | Some(Token::LParen) => true,
            _ => false,
        }
    }

    /// Parses a number, `true`, `false`, a name or a parenthesised term.
    fn parse_primary(&mut self) -> (r: Result<Term, EvalError>)
        ensures
            Self::outcome(*old(self), *final(self), r, primary_at(old(self).tokens@, old(self).position as int)),
        decreases old(self).tokens@.len() - old(self).position, 7int,
    {
        match self.advance() {
            Some(Token::Number(value)) => Ok(Term::Int(value)),
            Some(Token::True) => Ok(Term::True),
            Some(Token::False) => Ok(Term::False),
            Some(Token::Identifier(name)) => Ok(Term::Var(name)),
            Some(Token::LParen) => {
                let term = match self.parse_term() {
                    Ok(t) => t,
                    Err(e) => return Err(e),
                };
                match self.expect(Token::RParen) {
                    Ok(_) => Ok(term),
                    Err(e) => Err(e),
                }
            },
            Some(token) => {
                let mut m = text("unexpected token ");
                token.push_debug_text(&mut m);
                push_text(&mut m, " while parsing a MiniFun term");
                Err(EvalError::ParseError(m))
            },
            None => Err(EvalError::UnexpectedEndOfInput),
        }
    }

    /// Parses a term that must reach the last token.
    pub fn finish(self) -> (r: Result<Term, EvalError>)
        ensures
            result_view(r) == finish_at(self.token_seq(), self.pos()),
    {
        let mut parser = self;
        let term = match parser.parse_term() {
            Ok(t) => t,
            Err(e) => return Err(e),
        };
        match parser.peek() {
            Some(token) => {
                let mut m = text("unexpected extra token Some(");
                token.push_debug_text(&mut m);
                push_text(&mut m, ") after the end of the term");
                Err(EvalError::ParseError(m))
            },
            None => Ok(term),
        }
    }

    /// Parses a type; `->` groups to the left.
    fn parse_type(&mut self) -> (r: Result<Type, EvalError>)
        ensures
            Self::outcome(*old(self), *final(self), r, type_at(old(self).tokens@, old(self).position as int)),
        decreases old(self).tokens@.len() - old(self).position, 2int,
    {
        let ghost ts = self.tokens@;
        let ghost pos0 = self.position as int;
        let mut ty = match self.parse_atomic_type() {
            Ok(t) => t,
            Err(e) => return Err(e),
        };
        while self.check(&Token::TypeArrow)
            invariant
                ts == old(self).tokens@,
                pos0 == old(self).position,
                self.tokens@ == ts,
                pos0 < self.position <= ts.len(),
                type_at(ts, pos0) == type_rest(ts, ty, self.position as int),
            decreases ts.len() - self.position,
        {
            let ghost p = self.position as int;
            self.advance();
            let right = match self.parse_atomic_type() {
                Ok(t) => t,
                Err(e) => return Err(e),
            };
            assert(type_rest(ts, ty, p) == type_rest(ts, Type::Fun(Box::new(ty), Box::new(right)), self.position as int));
            ty = Type::Fun(Box::new(ty), Box::new(right));
        }
        Ok(ty)
    }

    /// Parses `int`, `bool` or a parenthesised type.
    fn parse_atomic_type(&mut self) -> (r: Result<Type, EvalError>)
        ensures
            Self::outcome(*old(self), *final(self), r, atomic_type_at(old(self).tokens@, old(self).position as int)),
        decreases old(self).tokens@.len() - old(self).position, 0int,
    {
        match self.advance() {
            Some(Token::TypeInt) => Ok(Type::Int),
            Some(Token::TypeBool) => Ok(Type::Bool),
            Some(Token::LParen) => {
                let ty = match self.parse_type() {
                    Ok(t) => t,
                    Err(e) => return Err(e),
                };
                match self.expect(Token::RParen) {
                    Ok(_) => Ok(ty),
                    Err(e) => Err(e),
                }
            },
            Some(token) => {
                let mut m = text("unexpected token ");
                token.push_debug_text(&mut m);
                push_text(&mut m, " while parsing a type");
                Err(EvalError::ParseError(m))
            },
            None => Err(EvalError::UnexpectedEndOfInput),
        }
    }
}

/// Parses a whole token list into a term.
pub fn parse_tokens(tokens: Vec<Token>) -> (r: Result<Term, EvalError>)
    ensures
        result_view(r) == parse_spec(tokens@),
{
    let parser = Parser::new(tokens);
    parser.finish()
}

} // verus!
