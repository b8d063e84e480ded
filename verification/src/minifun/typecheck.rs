//! The MiniFun type checker.
use vstd::prelude::*;
use crate::common::error::{EvalError, ErrorModel, result_view};
use crate::common::text::{text, push_text};
use crate::minifun::ast::Term;
use crate::minifun::types::{Type, TypeEnv, type_text};

verus! {

/// The type that `+`, `-`, `*`, `&&`, `<` give two operands of types `l`
/// and `r`, or the error when they are not of the right types.
pub open spec fn binary_type(op: char, l: Type, r: Type) -> Result<Type, ErrorModel> {
    if op == '&' {
        if l == Type::Bool && r == Type::Bool {
            Ok(Type::Bool)
        } else {
            Err(ErrorModel::TypeCheckError("operator '&&' expects two booleans"@))
        }
    } else if l == Type::Int && r == Type::Int {
        Ok(if op == '<' { Type::Bool } else { Type::Int })
    } else {
        Err(ErrorModel::TypeCheckError(
            if op == '+' {
                "operator '+' expects two integers"@
            } else if op == '-' {
                "operator '-' expects two integers"@
            } else if op == '*' {
                "operator '*' expects two integers"@
            } else {
                "operator '<' expects two integers"@
            },
        ))
    }
}

/// The operator of a binary term.
pub open spec fn binary_op(term: Term) -> char {
    match term {
        Term::Add(_, _) => '+',
        Term::Sub(_, _) => '-',
        Term::Mul(_, _) => '*',
        Term::And(_, _) => '&',
        _ => '<',
    }
}

/// Type checks the two operands of a binary term left to right, then
/// combines their types.
pub open spec fn typecheck_binary(env: Map<Seq<char>, Type>, term: Term) -> Result<Type, ErrorModel>
    decreases term, 0nat,
{
    match term {
        Term::Add(a, b) | Term::Sub(a, b) | Term::Mul(a, b) | Term::And(a, b) | Term::Less(a, b) =>
            match typecheck_spec(env, *a) {
            Ok(l) => match typecheck_spec(env, *b) {
                Ok(r) => binary_type(binary_op(term), l, r),
                Err(e) => Err(e),
            },
            Err(e) => Err(e),
        },
        _ => Err(ErrorModel::UnexpectedEndOfInput),
    }
}

/// The type of `term` in the typing environment `env`, or the error that
/// the type checker reports.
pub open spec fn typecheck_spec(env: Map<Seq<char>, Type>, term: Term) -> Result<Type, ErrorModel>
    decreases term, 1nat,
{
    match term {
        Term::Int(_) => Ok(Type::Int),
        Term::True => Ok(Type::Bool),
        Term::False => Ok(Type::Bool),
        Term::Var(x) => if env.dom().contains(x@) {
            Ok(env[x@])
        } else {
            Err(ErrorModel::TypeCheckError(
                "variable '"@ + x@ + "' is not defined in the typing environment"@,
            ))
        },
        Term::Add(_, _) => typecheck_binary(env, term),
        Term::Sub(_, _) => typecheck_binary(env, term),
        Term::Mul(_, _) => typecheck_binary(env, term),
        Term::And(_, _) => typecheck_binary(env, term),
        Term::Less(_, _) => typecheck_binary(env, term),
        Term::Not(a) => match typecheck_spec(env, *a) {
            Ok(t) => if t == Type::Bool {
                Ok(Type::Bool)
            } else {
                Err(ErrorModel::TypeCheckError("operator '~' expects a boolean"@))
            },
            Err(e) => Err(e),
        },
        Term::If(c, t1, t2) => match typecheck_spec(env, *c) {
            Ok(ct) => match typecheck_spec(env, *t1) {
                Ok(tt) => match typecheck_spec(env, *t2) {
                    Ok(et) => if ct != Type::Bool {
                        Err(ErrorModel::TypeCheckError("if condition must have type bool"@))
                    } else if tt != et {
                        Err(ErrorModel::TypeCheckError(
                            "if branches must have the same type, but found "@ + type_text(tt)
                                + " and "@ + type_text(et),
                        ))
                    } else {
                        Ok(tt)
                    },
                    Err(e) => Err(e),
                },
                Err(e) => Err(e),
            },
            Err(e) => Err(e),
        },
        Term::Fun(x, pt, body) => match typecheck_spec(env.insert(x@, pt), *body) {
            Ok(bt) => Ok(Type::Fun(Box::new(pt), Box::new(bt))),
            Err(e) => Err(e),
        },
        Term::App(t1, t2) => match typecheck_spec(env, *t1) {
            Ok(ft) => match typecheck_spec(env, *t2) {
                Ok(at) => match ft {
                    Type::Fun(pt, rt) => if *pt == at {
                        Ok(*rt)
                    } else {
                        Err(ErrorModel::TypeCheckError(
                            "function expects argument of type "@ + type_text(*pt) + ", but found "@
                                + type_text(at),
                        ))
                    },
                    _ => Err(ErrorModel::TypeCheckError("attempted to apply a non-function term"@)),
                },
                Err(e) => Err(e),
            },
            Err(e) => Err(e),
        },
        Term::Let(x, t1, t2) => match typecheck_spec(env, *t1) {
            Ok(vt) => typecheck_spec(env.insert(x@, vt), *t2),
            Err(e) => Err(e),
        },
        Term::LetFun(g, x, ft, body, rest) => match ft {
            Type::Fun(pt, rt) => match typecheck_spec(env.insert(g@, ft).insert(x@, *pt), *body) {
                Ok(bt) => if bt != *rt {
                    Err(ErrorModel::TypeCheckError(
                        "letfun body has type "@ + type_text(bt) + ", but the annotation expects "@
                            + type_text(*rt),
                    ))
                } else {
                    typecheck_spec(env.insert(g@, ft), *rest)
                },
                Err(e) => Err(e),
            },
            _ => Err(ErrorModel::TypeCheckError("letfun annotation must be a function type"@)),
        },
    }
}

/// What the type checker gives each construct from the types of its parts:
/// `+`, `-`, `*` on two integers give an integer and `<` a boolean; `&&`
/// on two booleans and `~` on a boolean give a boolean; an `if` with a
/// boolean condition and two branches of one type has that type; applying
/// a function of type `p -> r` to an argument of type `p` gives `r`; and a
/// function whose body has type `bt` once its parameter has type `pt` has
/// type `pt -> bt`.
pub proof fn lemma_typecheck_rules(env: Map<Seq<char>, Type>, a: Term, b: Term, c: Term, ta: Type, tb: Type, tc: Type)
    requires
        typecheck_spec(env, a) == Ok::<Type, ErrorModel>(ta),
        typecheck_spec(env, b) == Ok::<Type, ErrorModel>(tb),
        typecheck_spec(env, c) == Ok::<Type, ErrorModel>(tc),
    ensures
        ta == Type::Int && tb == Type::Int ==> {
            &&& typecheck_spec(env, Term::Add(Box::new(a), Box::new(b))) == Ok::<Type, ErrorModel>(Type::Int)
            &&& typecheck_spec(env, Term::Sub(Box::new(a), Box::new(b))) == Ok::<Type, ErrorModel>(Type::Int)
            &&& typecheck_spec(env, Term::Mul(Box::new(a), Box::new(b))) == Ok::<Type, ErrorModel>(Type::Int)
            &&& typecheck_spec(env, Term::Less(Box::new(a), Box::new(b))) == Ok::<Type, ErrorModel>(Type::Bool)
        },
        ta == Type::Bool && tb == Type::Bool ==> {
            &&& typecheck_spec(env, Term::And(Box::new(a), Box::new(b))) == Ok::<Type, ErrorModel>(Type::Bool)
            &&& typecheck_spec(env, Term::Not(Box::new(a))) == Ok::<Type, ErrorModel>(Type::Bool)
        },
        ta == Type::Bool && tb == tc ==> typecheck_spec(env, Term::If(Box::new(a), Box::new(b), Box::new(c)))
            == Ok::<Type, ErrorModel>(tb),
        ta == Type::Fun(Box::new(tb), Box::new(tc)) ==> typecheck_spec(env, Term::App(Box::new(a), Box::new(b)))
            == Ok::<Type, ErrorModel>(tc),
{
    let add = Term::Add(Box::new(a), Box::new(b));
    let sub = Term::Sub(Box::new(a), Box::new(b));
    let mul = Term::Mul(Box::new(a), Box::new(b));
    let less = Term::Less(Box::new(a), Box::new(b));
    let and = Term::And(Box::new(a), Box::new(b));
    assert(typecheck_binary(env, add) == binary_type('+', ta, tb));
    assert(typecheck_binary(env, sub) == binary_type('-', ta, tb));
    assert(typecheck_binary(env, mul) == binary_type('*', ta, tb));
    assert(typecheck_binary(env, less) == binary_type('<', ta, tb));
    assert(typecheck_binary(env, and) == binary_type('&', ta, tb));
}

/// A function whose body has type `bt` once its parameter `x` has type
/// `pt` has type `pt -> bt`; `let x = t1 in t2` has the type of `t2` with
/// `x` of the type of `t1`; a variable has the type the environment gives.
pub proof fn lemma_typecheck_binders(env: Map<Seq<char>, Type>, x: String, pt: Type, body: Term, t1: Term, t2: Term)
    ensures
        typecheck_spec(env.insert(x@, pt), body) matches Ok(bt) ==> typecheck_spec(env, Term::Fun(x, pt, Box::new(body)))
            == Ok::<Type, ErrorModel>(Type::Fun(Box::new(pt), Box::new(bt))),
        typecheck_spec(env, t1) matches Ok(vt) ==> typecheck_spec(env, Term::Let(x, Box::new(t1), Box::new(t2)))
            == typecheck_spec(env.insert(x@, vt), t2),
        env.dom().contains(x@) ==> typecheck_spec(env, Term::Var(x)) == Ok::<Type, ErrorModel>(env[x@]),
{
}

/// `letfun g x : pt -> rt = body in rest`, where `body` has type `rt` once
/// `g` has type `pt -> rt` and `x` type `pt`, has the type of `rest` with
/// `g` of type `pt -> rt`.
pub proof fn lemma_typecheck_letfun(env: Map<Seq<char>, Type>, g: String, x: String, pt: Type, rt: Type, body: Term, rest: Term)
    requires
        typecheck_spec(
            env.insert(g@, Type::Fun(Box::new(pt), Box::new(rt))).insert(x@, pt),
            body,
        ) == Ok::<Type, ErrorModel>(rt),
    ensures
        typecheck_spec(env, Term::LetFun(g, x, Type::Fun(Box::new(pt), Box::new(rt)), Box::new(body), Box::new(rest)))
            == typecheck_spec(env.insert(g@, Type::Fun(Box::new(pt), Box::new(rt))), rest),
{
}

/// The type checker fails only with type errors: whatever term and typing
/// environment it is given, an error it reports is a `TypeCheckError`.
pub proof fn lemma_typecheck_errors(env: Map<Seq<char>, Type>, term: Term)
    ensures
        typecheck_spec(env, term) matches Err(e) ==> e is TypeCheckError,
    decreases term,
{
    match term {
        Term::Add(a, b) | Term::Sub(a, b) | Term::Mul(a, b) | Term::And(a, b) | Term::Less(a, b) => {
            lemma_typecheck_errors(env, *a);
            lemma_typecheck_errors(env, *b);
            assert(typecheck_spec(env, term) == typecheck_binary(env, term));
            assert(typecheck_binary(env, term) == match typecheck_spec(env, *a) {
                Ok(l) => match typecheck_spec(env, *b) {
                    Ok(r) => binary_type(binary_op(term), l, r),
                    Err(e) => Err(e),
                },
                Err(e) => Err(e),
            });
        },
        Term::Not(a) => {
            lemma_typecheck_errors(env, *a);
        },
        Term::If(c, a, b) => {
            lemma_typecheck_errors(env, *c);
            lemma_typecheck_errors(env, *a);
            lemma_typecheck_errors(env, *b);
        },
        Term::Fun(x, pt, body) => {
            lemma_typecheck_errors(env.insert(x@, pt), *body);
        },
        Term::App(f, a) => {
            lemma_typecheck_errors(env, *f);
            lemma_typecheck_errors(env, *a);
        },
        Term::Let(x, t1, t2) => {
            lemma_typecheck_errors(env, *t1);
            if let Ok(vt) = typecheck_spec(env, *t1) {
                lemma_typecheck_errors(env.insert(x@, vt), *t2);
            }
        },
        Term::LetFun(g, x, ft, body, rest) => {
            if let Type::Fun(pt, rt) = ft {
                lemma_typecheck_errors(env.insert(g@, ft).insert(x@, *pt), *body);
                lemma_typecheck_errors(env.insert(g@, ft), *rest);
            }
        },
        _ => {},
    }
}

fn binary(env: &TypeEnv, term: &Term) -> (r: Result<Type, EvalError>)
    requires
        term is Add || term is Sub || term is Mul || term is And || term is Less,
    ensures
        result_view(r) == typecheck_binary(env@, *term),
    decreases *term, 0nat,
{
    let (a, b, op) = match term {
        Term::Add(a, b) => (a, b, '+'),
        Term::Sub(a, b) => (a, b, '-'),
        Term::Mul(a, b) => (a, b, '*'),
        Term::And(a, b) => (a, b, '&'),
        Term::Less(a, b) => (a, b, '<'),
        _ => {
            return Err(EvalError::UnexpectedEndOfInput);
        },
    };
    let l = typecheck_term(env, a)?;
    let r = typecheck_term(env, b)?;
    if op == '&' {
        if matches!(l, Type::Bool) && matches!(r, Type::Bool) {
            Ok(Type::Bool)
        } else {
            Err(EvalError::TypeCheckError(text("operator '&&' expects two booleans")))
        }
    } else if matches!(l, Type::Int) && matches!(r, Type::Int) {
        Ok(if op == '<' { Type::Bool } else { Type::Int })
    } else {
        let m = if op == '+' {
            text("operator '+' expects two integers")
        } else if op == '-' {
            text("operator '-' expects two integers")
        } else if op == '*' {
            text("operator '*' expects two integers")
        } else {
            text("operator '<' expects two integers")
        };
        Err(EvalError::TypeCheckError(m))
    }
}

/// Type checks a MiniFun term in the given typing environment: its type,
/// or the error that makes it ill typed.
pub fn typecheck_term(env: &TypeEnv, term: &Term) -> (r: Result<Type, EvalError>)
    ensures
        result_view(r) == typecheck_spec(env@, *term),
    decreases *term, 1nat,
{
    match term {
        Term::Int(_) => Ok(Type::Int),
        Term::True => Ok(Type::Bool),
        Term::False => Ok(Type::Bool),
        Term::Var(x) => match env.get(x) {
            Some(t) => Ok(t.copy()),
            None => {
                let mut m = text("variable '");
                push_text(&mut m, x.as_str());
                push_text(&mut m, "' is not defined in the typing environment");
                Err(EvalError::TypeCheckError(m))
            },
        },
        Term::Add(_, _) => binary(env, term),
        Term::Sub(_, _) => binary(env, term),
        Term::Mul(_, _) => binary(env, term),
        Term::And(_, _) => binary(env, term),
        Term::Less(_, _) => binary(env, term),
        Term::Not(a) => {
            let t = typecheck_term(env, a)?;
            if matches!(t, Type::Bool) {
                Ok(Type::Bool)
            } else {
                Err(EvalError::TypeCheckError(text("operator '~' expects a boolean")))
            }
        },
        Term::If(c, t1, t2) => {
            let ct = typecheck_term(env, c)?;
            let tt = typecheck_term(env, t1)?;
            let et = typecheck_term(env, t2)?;
            if !matches!(ct, Type::Bool) {
                return Err(EvalError::TypeCheckError(text("if condition must have type bool")));
            }
            if !tt.same(&et) {
                let mut m = text("if branches must have the same type, but found ");
                tt.push_debug_text(&mut m);
                push_text(&mut m, " and ");
                et.push_debug_text(&mut m);
                return Err(EvalError::TypeCheckError(m));
            }
            Ok(tt)
        },
        Term::Fun(x, pt, body) => {
            let mut updated = env.copy();
            updated.insert(x.clone(), pt.copy());
            let bt = typecheck_term(&updated, body)?;
            Ok(Type::Fun(Box::new(pt.copy()), Box::new(bt)))
        },
        Term::App(t1, t2) => {
            let ft = typecheck_term(env, t1)?;
            let at = typecheck_term(env, t2)?;
            match ft {
                Type::Fun(pt, rt) => {
                    if pt.same(&at) {
                        Ok(*rt)
                    } else {
                        let mut m = text("function expects argument of type ");
                        pt.push_debug_text(&mut m);
                        push_text(&mut m, ", but found ");
                        at.push_debug_text(&mut m);
                        Err(EvalError::TypeCheckError(m))
                    }
                },
                _ => Err(EvalError::TypeCheckError(text("attempted to apply a non-function term"))),
            }
        },
        Term::Let(x, t1, t2) => {
            let vt = typecheck_term(env, t1)?;
            let mut updated = env.copy();
            updated.insert(x.clone(), vt);
            typecheck_term(&updated, t2)
        },
        Term::LetFun(g, x, ft, body, rest) => match ft {
            Type::Fun(pt, rt) => {
                let mut function_env = env.copy();
                function_env.insert(g.clone(), ft.copy());
                function_env.insert(x.clone(), pt.copy());
                let bt = typecheck_term(&function_env, body)?;
                if !bt.same(rt) {
                    let mut m = text("letfun body has type ");
                    bt.push_debug_text(&mut m);
                    push_text(&mut m, ", but the annotation expects ");
                    rt.push_debug_text(&mut m);
                    return Err(EvalError::TypeCheckError(m));
                }
                let mut in_env = env.copy();
                in_env.insert(g.clone(), ft.copy());
                typecheck_term(&in_env, rest)
            },
            _ => Err(EvalError::TypeCheckError(text("letfun annotation must be a function type"))),
        },
    }
}

/// Type checks a complete MiniFun term in the empty typing environment.
pub fn typecheck_program(term: &Term) -> (r: Result<Type, EvalError>)
    ensures
        result_view(r) == typecheck_spec(Map::empty(), *term),
{
    let env = TypeEnv::new();
    typecheck_term(&env, term)
}

} // verus!
