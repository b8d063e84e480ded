//! Big-step evaluation of MiniFun terms.
//!
//! Evaluation need not end (a recursive function may call itself forever),
//! so the semantics is given with a bound on the depth of nested
//! evaluations: `eval_spec(fuel, ..)` is `None` when the bound is reached,
//! or when an `i64` operation overflows, where the interpreter panics.
use vstd::prelude::*;
use crate::common::error::{EvalError, ErrorModel, result_view};
use crate::common::text::text;
use crate::minifun::ast::Term;
use crate::minifun::types::Type;
use crate::minifun::runtime::{Env, Value};

verus! {

/// Is the integer in the range of `i64`?
pub open spec fn in_i64(x: int) -> bool {
    i64::MIN <= x <= i64::MAX
}

/// A result taken with its error by view.
pub open spec fn outcome_view(r: Option<Result<Value, EvalError>>) -> Option<Result<Value, ErrorModel>> {
    match r {
        Some(x) => Some(result_view(x)),
        None => None,
    }
}

/// Evaluates two terms left to right.
pub open spec fn eval_two(fuel: nat, env: Env, a: Term, b: Term) -> Option<Result<(Value, Value), ErrorModel>>
    decreases fuel, 1nat,
{
    match eval_spec(fuel, env, a) {
        Some(Ok(x)) => match eval_spec(fuel, env, b) {
            Some(Ok(y)) => Some(Ok((x, y))),
            Some(Err(e)) => Some(Err(e)),
            None => None,
        },
        Some(Err(e)) => Some(Err(e)),
        None => None,
    }
}

/// Applies a function value to an argument.
pub open spec fn apply_spec(fuel: nat, fv: Value, arg: Value) -> Option<Result<Value, ErrorModel>>
    decreases fuel, 1nat,
{
    match fv {
        Value::Closure(x, body, cenv) => eval_spec(fuel, cenv.bind(x, arg), *body),
        Value::RecClosure(g, x, body, cenv) => eval_spec(
            fuel,
            cenv.bind(g, Value::RecClosure(g, x, body, cenv)).bind(x, arg),
            *body,
        ),
        _ => Some(Err(ErrorModel::TypeError("attempted to apply a non-function value"@))),
    }
}

/// `+`, `-` or `*` on two values; `None` on overflow.
pub open spec fn arith_spec(op: char, x: Value, y: Value) -> Option<Result<Value, ErrorModel>> {
    match (x, y) {
        (Value::Int(a), Value::Int(b)) => {
            let v = if op == '+' { a + b } else if op == '-' { a - b } else { a * b };
            if in_i64(v) {
                Some(Ok(Value::Int(v as i64)))
            } else {
                None
            }
        },
        _ => Some(Err(ErrorModel::TypeError(
            if op == '+' {
                "operator '+' expects two integers"@
            } else if op == '-' {
                "operator '-' expects two integers"@
            } else {
                "operator '*' expects two integers"@
            },
        ))),
    }
}

/// The result of evaluating `term` in `env`, with at most `fuel` nested
/// evaluations; `None` when that is not enough or an `i64` operation
/// overflows.
pub open spec fn eval_spec(fuel: nat, env: Env, term: Term) -> Option<Result<Value, ErrorModel>>
    decreases fuel, 0nat,
{
    if fuel == 0 {
        None
    } else {
        let f = (fuel - 1) as nat;
        match term {
            Term::Int(n) => Some(Ok(Value::Int(n))),
            Term::True => Some(Ok(Value::Bool(true))),
            Term::False => Some(Ok(Value::Bool(false))),
            Term::Var(x) => match env.lookup(x@) {
                Some(v) => Some(Ok(v)),
                None => Some(Err(ErrorModel::UndefinedVariable(x@))),
            },
            Term::Fun(x, _, body) => Some(Ok(Value::Closure(x, body, env))),
            Term::Let(x, t1, t2) => match eval_spec(f, env, *t1) {
                Some(Ok(v)) => eval_spec(f, env.bind(x, v), *t2),
                other => other,
            },
            Term::LetFun(g, x, _, body, rest) => eval_spec(
                f,
                env.bind(g, Value::RecClosure(g, x, body, env)),
                *rest,
            ),
            Term::If(c, t1, t2) => match eval_spec(f, env, *c) {
                Some(Ok(Value::Bool(b))) => if b {
                    eval_spec(f, env, *t1)
                } else {
                    eval_spec(f, env, *t2)
                },
                Some(Ok(_)) => Some(Err(ErrorModel::TypeError("if condition must evaluate to a boolean"@))),
                other => other,
            },
            Term::App(t1, t2) => match eval_two(f, env, *t1, *t2) {
                Some(Ok((fv, av))) => apply_spec(f, fv, av),
                Some(Err(e)) => Some(Err(e)),
                None => None,
            },
            Term::Add(a, b) => match eval_two(f, env, *a, *b) {
                Some(Ok((x, y))) => arith_spec('+', x, y),
                Some(Err(e)) => Some(Err(e)),
                None => None,
            },
            Term::Sub(a, b) => match eval_two(f, env, *a, *b) {
                Some(Ok((x, y))) => arith_spec('-', x, y),
                Some(Err(e)) => Some(Err(e)),
                None => None,
            },
            Term::Mul(a, b) => match eval_two(f, env, *a, *b) {
                Some(Ok((x, y))) => arith_spec('*', x, y),
                Some(Err(e)) => Some(Err(e)),
                None => None,
            },
            Term::And(a, b) => match eval_two(f, env, *a, *b) {
                Some(Ok((Value::Bool(x), Value::Bool(y)))) => Some(Ok(Value::Bool(x && y))),
                Some(Ok(_)) => Some(Err(ErrorModel::TypeError("operator 'and' expects two booleans"@))),
                Some(Err(e)) => Some(Err(e)),
                None => None,
            },
            Term::Less(a, b) => match eval_two(f, env, *a, *b) {
                Some(Ok((Value::Int(x), Value::Int(y)))) => Some(Ok(Value::Bool(x < y))),
                Some(Ok(_)) => Some(Err(ErrorModel::TypeError("operator '<' expects two integers"@))),
                Some(Err(e)) => Some(Err(e)),
                None => None,
            },
            Term::Not(a) => match eval_spec(f, env, *a) {
                Some(Ok(Value::Bool(x))) => Some(Ok(Value::Bool(!x))),
                Some(Ok(_)) => Some(Err(ErrorModel::TypeError("operator 'not' expects a boolean"@))),
                other => other,
            },
        }
    }
}

// ---------------------------------------------------------------------------
// What each construct computes from the values of its parts

/// `+`, `-`, `*` and `<` on two terms that evaluate to the integers `x` and
/// `y` give `x + y`, `x - y`, `x * y` (no result when it leaves the range
/// of `i64`) and the truth of `x < y`.
pub proof fn lemma_eval_arith(fuel: nat, env: Env, a: Term, b: Term, x: i64, y: i64)
    requires
        eval_spec(fuel, env, a) == Some(Ok::<Value, ErrorModel>(Value::Int(x))),
        eval_spec(fuel, env, b) == Some(Ok::<Value, ErrorModel>(Value::Int(y))),
    ensures
        eval_spec(fuel + 1, env, Term::Add(Box::new(a), Box::new(b)))
            == (if i64::MIN <= x + y <= i64::MAX { Some(Ok::<Value, ErrorModel>(Value::Int((x + y) as i64))) } else { None }),
        eval_spec(fuel + 1, env, Term::Sub(Box::new(a), Box::new(b)))
            == (if i64::MIN <= x - y <= i64::MAX { Some(Ok::<Value, ErrorModel>(Value::Int((x - y) as i64))) } else { None }),
        eval_spec(fuel + 1, env, Term::Mul(Box::new(a), Box::new(b)))
            == (if i64::MIN <= x * y <= i64::MAX { Some(Ok::<Value, ErrorModel>(Value::Int((x * y) as i64))) } else { None }),
        eval_spec(fuel + 1, env, Term::Less(Box::new(a), Box::new(b))) == Some(Ok::<Value, ErrorModel>(Value::Bool(x < y))),
{
    assert(eval_two(fuel, env, a, b) == Some(Ok::<(Value, Value), ErrorModel>((Value::Int(x), Value::Int(y)))));
}

/// `&&` on two terms that evaluate to the booleans `x` and `y` gives
/// `x && y`, and `~` on a term that evaluates to `x` gives `!x`.
pub proof fn lemma_eval_logic(fuel: nat, env: Env, a: Term, b: Term, x: bool, y: bool)
    requires
        eval_spec(fuel, env, a) == Some(Ok::<Value, ErrorModel>(Value::Bool(x))),
        eval_spec(fuel, env, b) == Some(Ok::<Value, ErrorModel>(Value::Bool(y))),
    ensures
        eval_spec(fuel + 1, env, Term::And(Box::new(a), Box::new(b))) == Some(Ok::<Value, ErrorModel>(Value::Bool(x && y))),
        eval_spec(fuel + 1, env, Term::Not(Box::new(a))) == Some(Ok::<Value, ErrorModel>(Value::Bool(!x))),
{
    assert(eval_two(fuel, env, a, b) == Some(Ok::<(Value, Value), ErrorModel>((Value::Bool(x), Value::Bool(y)))));
}

/// `if c then t else e`, with `c` evaluating to `x`, runs `t` when `x` is
/// true and `e` when it is false.
pub proof fn lemma_eval_if(fuel: nat, env: Env, c: Term, t: Term, e: Term, x: bool)
    requires
        eval_spec(fuel, env, c) == Some(Ok::<Value, ErrorModel>(Value::Bool(x))),
    ensures
        eval_spec(fuel + 1, env, Term::If(Box::new(c), Box::new(t), Box::new(e)))
            == (if x { eval_spec(fuel, env, t) } else { eval_spec(fuel, env, e) }),
{
}

/// `let x = t1 in t2` runs `t2` with `x` bound to the value of `t1`.
pub proof fn lemma_eval_let(fuel: nat, env: Env, x: String, t1: Term, t2: Term, v: Value)
    requires
        eval_spec(fuel, env, t1) == Some(Ok::<Value, ErrorModel>(v)),
    ensures
        eval_spec(fuel + 1, env, Term::Let(x, Box::new(t1), Box::new(t2))) == eval_spec(fuel, env.bind(x, v), t2),
        env.bind(x, v).lookup(x@) == Some(v),
{
}

/// Applying a term that evaluates to the closure `fun x => body` made in
/// `cenv` to a term that evaluates to `v` runs `body` in `cenv` with `x`
/// bound to `v`; a variable evaluates to the value the environment gives
/// it, and `fun x : t => body` to the closure of `body` in the current
/// environment.
pub proof fn lemma_eval_app(fuel: nat, env: Env, f: Term, a: Term, x: String, body: Term, cenv: Env, v: Value, y: String, t: Type)
    requires
        eval_spec(fuel, env, f) == Some(Ok::<Value, ErrorModel>(Value::Closure(x, Box::new(body), cenv))),
        eval_spec(fuel, env, a) == Some(Ok::<Value, ErrorModel>(v)),
    ensures
        eval_spec(fuel + 1, env, Term::App(Box::new(f), Box::new(a))) == eval_spec(fuel, cenv.bind(x, v), body),
        eval_spec(fuel + 1, env, Term::Var(y)) == (match env.lookup(y@) {
            Some(w) => Some(Ok::<Value, ErrorModel>(w)),
            None => Some(Err(ErrorModel::UndefinedVariable(y@))),
        }),
        eval_spec(fuel + 1, env, Term::Fun(y, t, Box::new(body))) == Some(Ok::<Value, ErrorModel>(Value::Closure(y, Box::new(body), env))),
{
    let fv = Value::Closure(x, Box::new(body), cenv);
    assert(eval_two(fuel, env, f, a) == Some(Ok::<(Value, Value), ErrorModel>((fv, v))));
    assert(apply_spec(fuel, fv, v) == eval_spec(fuel, cenv.bind(x, v), body));
}

/// `letfun g x : t = body in rest` runs `rest` with `g` bound to the
/// recursive closure of `body`, and applying that closure to a value `v`
/// runs `body` with `g` bound to the closure itself and `x` to `v`.
pub proof fn lemma_eval_recursion(fuel: nat, env: Env, f: Term, a: Term, g: String, x: String, t: Type, body: Term, rest: Term, cenv: Env, v: Value)
    requires
        eval_spec(fuel, env, f) == Some(Ok::<Value, ErrorModel>(Value::RecClosure(g, x, Box::new(body), cenv))),
        eval_spec(fuel, env, a) == Some(Ok::<Value, ErrorModel>(v)),
    ensures
        eval_spec(fuel + 1, env, Term::App(Box::new(f), Box::new(a))) == eval_spec(
            fuel,
            cenv.bind(g, Value::RecClosure(g, x, Box::new(body), cenv)).bind(x, v),
            body,
        ),
        eval_spec(fuel + 1, env, Term::LetFun(g, x, t, Box::new(body), Box::new(rest))) == eval_spec(
            fuel,
            env.bind(g, Value::RecClosure(g, x, Box::new(body), env)),
            rest,
        ),
{
    let fv = Value::RecClosure(g, x, Box::new(body), cenv);
    assert(eval_two(fuel, env, f, a) == Some(Ok::<(Value, Value), ErrorModel>((fv, v))));
    assert(apply_spec(fuel, fv, v) == eval_spec(fuel, cenv.bind(g, fv).bind(x, v), body));
}

/// More fuel does not change a result that less fuel already gives.
pub proof fn lemma_eval_fuel_monotone(f1: nat, f2: nat, env: Env, term: Term)
    requires
        f1 <= f2,
        eval_spec(f1, env, term) is Some,
    ensures
        eval_spec(f2, env, term) == eval_spec(f1, env, term),
    decreases f1, 0nat,
{
    let g1 = (f1 - 1) as nat;
    let g2 = (f2 - 1) as nat;
    match term {
        Term::Let(x, t1, t2) => {
            lemma_eval_fuel_monotone(g1, g2, env, *t1);
            if let Some(Ok(v)) = eval_spec(g1, env, *t1) {
                lemma_eval_fuel_monotone(g1, g2, env.bind(x, v), *t2);
            }
        },
        Term::LetFun(g, x, _, body, rest) => {
            lemma_eval_fuel_monotone(g1, g2, env.bind(g, Value::RecClosure(g, x, body, env)), *rest);
        },
        Term::If(c, t1, t2) => {
            lemma_eval_fuel_monotone(g1, g2, env, *c);
            if let Some(Ok(Value::Bool(b))) = eval_spec(g1, env, *c) {
                if b {
                    lemma_eval_fuel_monotone(g1, g2, env, *t1);
                } else {
                    lemma_eval_fuel_monotone(g1, g2, env, *t2);
                }
            }
        },
        Term::App(t1, t2) => {
            lemma_eval_two_fuel_monotone(g1, g2, env, *t1, *t2);
            if let Some(Ok((fv, av))) = eval_two(g1, env, *t1, *t2) {
                lemma_apply_fuel_monotone(g1, g2, fv, av);
            }
        },
        Term::Add(a, b) | Term::Sub(a, b) | Term::Mul(a, b) | Term::And(a, b) | Term::Less(a, b) => {
            lemma_eval_two_fuel_monotone(g1, g2, env, *a, *b);
        },
        Term::Not(a) => {
            lemma_eval_fuel_monotone(g1, g2, env, *a);
        },
        _ => {},
    }
}

/// More fuel does not change what evaluating two terms gives.
pub proof fn lemma_eval_two_fuel_monotone(f1: nat, f2: nat, env: Env, a: Term, b: Term)
    requires
        f1 <= f2,
        eval_two(f1, env, a, b) is Some,
    ensures
        eval_two(f2, env, a, b) == eval_two(f1, env, a, b),
    decreases f1, 1nat,
{
    lemma_eval_fuel_monotone(f1, f2, env, a);
    if let Some(Ok(_)) = eval_spec(f1, env, a) {
        lemma_eval_fuel_monotone(f1, f2, env, b);
    }
}

/// More fuel does not change what applying a function gives.
pub proof fn lemma_apply_fuel_monotone(f1: nat, f2: nat, fv: Value, arg: Value)
    requires
        f1 <= f2,
        apply_spec(f1, fv, arg) is Some,
    ensures
        apply_spec(f2, fv, arg) == apply_spec(f1, fv, arg),
    decreases f1, 1nat,
{
    match fv {
        Value::Closure(x, body, cenv) => {
            lemma_eval_fuel_monotone(f1, f2, cenv.bind(x, arg), *body);
        },
        Value::RecClosure(g, x, body, cenv) => {
            lemma_eval_fuel_monotone(
                f1,
                f2,
                cenv.bind(g, Value::RecClosure(g, x, body, cenv)).bind(x, arg),
                *body,
            );
        },
        _ => {},
    }
}

/// The largest bound on nesting that the interpreter uses.
pub open spec fn max_fuel() -> nat {
    u64::MAX as nat
}

/// Evaluates `a` then `b`; `None` or an error as soon as one of them gives it.
fn eval_pair(env: &Env, a: &Term, b: &Term, fuel: u64) -> (r: Option<Result<(Value, Value), EvalError>>)
    ensures
        match r {
            Some(Ok((x, y))) => eval_two(fuel as nat, *env, *a, *b) == Some(Ok::<(Value, Value), ErrorModel>((x, y))),
            Some(Err(e)) => eval_two(fuel as nat, *env, *a, *b) == Some(Err::<(Value, Value), ErrorModel>(e@)),
            None => eval_two(fuel as nat, *env, *a, *b) is None,
        },
    decreases fuel, 1nat,
{
    let x = match eval_term_fuel(env, a, fuel) {
        Some(Ok(v)) => v,
        Some(Err(e)) => return Some(Err(e)),
        None => return None,
    };
    let y = match eval_term_fuel(env, b, fuel) {
        Some(Ok(v)) => v,
        Some(Err(e)) => return Some(Err(e)),
        None => return None,
    };
    Some(Ok((x, y)))
}

/// `+`, `-` or `*` on two values; `None` on overflow.
fn arith(op: char, x: Value, y: Value) -> (r: Option<Result<Value, EvalError>>)
    requires
        op == '+' || op == '-' || op == '*',
    ensures
        outcome_view(r) == arith_spec(op, x, y),
{
    match (x, y) {
        (Value::Int(a), Value::Int(b)) => {
            let v = if op == '+' {
                a.checked_add(b)
            } else if op == '-' {
                a.checked_sub(b)
            } else {
                a.checked_mul(b)
            };
            match v {
                Some(n) => Some(Ok(Value::Int(n))),
                None => None,
            }
        },
        _ => {
            let m = if op == '+' {
                text("operator '+' expects two integers")
            } else if op == '-' {
                text("operator '-' expects two integers")
            } else {
                text("operator '*' expects two integers")
            };
            Some(Err(EvalError::TypeError(m)))
        },
    }
}

/// Applies a function value to an argument.
fn apply(fv: Value, arg: Value, fuel: u64) -> (r: Option<Result<Value, EvalError>>)
    ensures
        outcome_view(r) == apply_spec(fuel as nat, fv, arg),
    decreases fuel, 1nat,
{
    match fv {
        Value::Closure(x, body, cenv) => {
            let mut updated = cenv;
            updated.insert(x, arg);
            eval_term_fuel(&updated, &body, fuel)
        },
        Value::RecClosure(g, x, body, cenv) => {
            let mut updated = cenv.copy();
            let rec = Value::RecClosure(g.clone(), x.clone(), Box::new(body.copy()), cenv);
            updated.insert(g, rec);
            updated.insert(x, arg);
            eval_term_fuel(&updated, &body, fuel)
        },
        _ => Some(Err(EvalError::TypeError(text("attempted to apply a non-function value")))),
    }
}

/// Evaluates `term` in `env` with at most `fuel` nested evaluations.
/// Gives `None` when that is not enough, or when an `i64` operation
/// overflows.
pub fn eval_term_fuel(env: &Env, term: &Term, fuel: u64) -> (r: Option<Result<Value, EvalError>>)
    ensures
        outcome_view(r) == eval_spec(fuel as nat, *env, *term),
    decreases fuel, 0nat,
{
    if fuel == 0 {
        return None;
    }
    let f = fuel - 1;
    match term {
        Term::Int(n) => Some(Ok(Value::Int(*n))),
        Term::True => Some(Ok(Value::Bool(true))),
        Term::False => Some(Ok(Value::Bool(false))),
        Term::Var(x) => match env.get(x) {
            Some(v) => Some(Ok(v.copy())),
            None => Some(Err(EvalError::UndefinedVariable(x.clone()))),
        },
        Term::Fun(x, _, body) => Some(Ok(Value::Closure(x.clone(), Box::new(body.copy()), env.copy()))),
        Term::Let(x, t1, t2) => {
            let v = match eval_term_fuel(env, t1, f) {
                Some(Ok(v)) => v,
                Some(Err(e)) => return Some(Err(e)),
                None => return None,
            };
            let mut updated = env.copy();
            updated.insert(x.clone(), v);
            eval_term_fuel(&updated, t2, f)
        },
        Term::LetFun(g, x, _, body, rest) => {
            let mut updated = env.copy();
            let rec = Value::RecClosure(g.clone(), x.clone(), Box::new(body.copy()), env.copy());
            updated.insert(g.clone(), rec);
            eval_term_fuel(&updated, rest, f)
        },
        Term::If(c, t1, t2) => {
            let cv = match eval_term_fuel(env, c, f) {
                Some(Ok(v)) => v,
                Some(Err(e)) => return Some(Err(e)),
                None => return None,
            };
            match cv {
                Value::Bool(true) => eval_term_fuel(env, t1, f),
                Value::Bool(false) => eval_term_fuel(env, t2, f),
                _ => Some(Err(EvalError::TypeError(text("if condition must evaluate to a boolean")))),
            }
        },
        Term::App(t1, t2) => match eval_pair(env, t1, t2, f) {
            Some(Ok((fv, av))) => apply(fv, av, f),
            Some(Err(e)) => Some(Err(e)),
            None => None,
        },
        Term::Add(a, b) => match eval_pair(env, a, b, f) {
            Some(Ok((x, y))) => arith('+', x, y),
            Some(Err(e)) => Some(Err(e)),
            None => None,
        },
        Term::Sub(a, b) => match eval_pair(env, a, b, f) {
            Some(Ok((x, y))) => arith('-', x, y),
            Some(Err(e)) => Some(Err(e)),
            None => None,
        },
        Term::Mul(a, b) => match eval_pair(env, a, b, f) {
            Some(Ok((x, y))) => arith('*', x, y),
            Some(Err(e)) => Some(Err(e)),
            None => None,
        },
        Term::And(a, b) => match eval_pair(env, a, b, f) {
            Some(Ok((Value::Bool(x), Value::Bool(y)))) => Some(Ok(Value::Bool(x && y))),
            Some(Ok(_)) => Some(Err(EvalError::TypeError(text("operator 'and' expects two booleans")))),
            Some(Err(e)) => Some(Err(e)),
            None => None,
        },
        Term::Less(a, b) => match eval_pair(env, a, b, f) {
            Some(Ok((Value::Int(x), Value::Int(y)))) => Some(Ok(Value::Bool(x < y))),
            Some(Ok(_)) => Some(Err(EvalError::TypeError(text("operator '<' expects two integers")))),
            Some(Err(e)) => Some(Err(e)),
            None => None,
        },
        Term::Not(a) => {
            let v = match eval_term_fuel(env, a, f) {
                Some(Ok(v)) => v,
                Some(Err(e)) => return Some(Err(e)),
                None => return None,
            };
            match v {
                Value::Bool(b) => Some(Ok(Value::Bool(!b))),
                _ => Some(Err(EvalError::TypeError(text("operator 'not' expects a boolean")))),
            }
        },
    }
}

/// Evaluates `term` in `env`. The run must end normally: within the
/// interpreter's bound on nesting and with no `i64` overflow (the
/// interpreter panics on overflow and loops forever on a run that does not
/// end; `eval_term_fuel` reports both as `None`).
pub fn eval_term(env: &Env, term: &Term) -> (r: Result<Value, EvalError>)
    requires
        eval_spec(max_fuel(), *env, *term) is Some,
    ensures
        Some(result_view(r)) == eval_spec(max_fuel(), *env, *term),
{
    eval_term_fuel(env, term, u64::MAX).unwrap()
}

/// Runs a complete MiniFun term in the empty environment.
pub fn eval_program(term: &Term) -> (r: Result<Value, EvalError>)
    requires
        eval_spec(max_fuel(), Env::Empty, *term) is Some,
    ensures
        Some(result_view(r)) == eval_spec(max_fuel(), Env::Empty, *term),
{
    let env = Env::new();
    eval_term(&env, term)
}

} // verus!
