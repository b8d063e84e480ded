//! Type soundness of MiniFun: evaluating a well-typed term never fails
//! with an error, and the value it gives has the term's type.
use vstd::prelude::*;
use crate::common::error::ErrorModel;
use crate::minifun::ast::Term;
use crate::minifun::eval::{eval_spec, eval_two, apply_spec};
use crate::minifun::runtime::{Env, Value};
use crate::minifun::typecheck::{typecheck_spec, typecheck_binary};
use crate::minifun::types::Type;

verus! {

/// The value has the type. A closure has a function type when its body has
/// the result type under some typing of the environment it captured.
pub open spec fn value_has_type(v: Value, t: Type) -> bool
    decreases v, 2nat,
{
    match v {
        Value::Int(_) => t == Type::Int,
        Value::Bool(_) => t == Type::Bool,
        Value::Closure(x, body, cenv) => match t {
            Type::Fun(a, b) => exists|g: Map<Seq<char>, Type>|
                env_has_types(cenv, g) && #[trigger] typecheck_spec(g.insert(x@, *a), *body)
                    == Ok::<Type, ErrorModel>(*b),
            _ => false,
        },
        Value::RecClosure(f, x, body, cenv) => match t {
            Type::Fun(a, b) => exists|g: Map<Seq<char>, Type>|
                env_has_types(cenv, g) && #[trigger] typecheck_spec(g.insert(f@, t).insert(x@, *a), *body)
                    == Ok::<Type, ErrorModel>(*b),
            _ => false,
        },
    }
}

/// Every variable that the typing environment gives a type has, in the
/// value environment, a value of that type.
pub open spec fn env_has_types(env: Env, g: Map<Seq<char>, Type>) -> bool
    decreases env, 1nat,
{
    forall|n: Seq<char>| #[trigger] g.dom().contains(n) ==> binding_has_type(env, n, g[n])
}

/// The value that `n` has in `env` has type `t`.
pub open spec fn binding_has_type(env: Env, n: Seq<char>, t: Type) -> bool
    decreases env, 0nat,
{
    match env {
        Env::Empty => false,
        Env::Bind(m, v, rest) => if m@ == n {
            value_has_type(*v, t)
        } else {
            binding_has_type(*rest, n, t)
        },
    }
}

proof fn lemma_lookup_has_type(env: Env, n: Seq<char>, t: Type)
    requires
        binding_has_type(env, n, t),
    ensures
        env.lookup(n) matches Some(v) && value_has_type(v, t),
    decreases env,
{
    match env {
        Env::Empty => {},
        Env::Bind(m, v, rest) => {
            if m@ != n {
                lemma_lookup_has_type(*rest, n, t);
            }
        },
    }
}

proof fn lemma_bind_has_types(env: Env, g: Map<Seq<char>, Type>, x: String, v: Value, t: Type)
    requires
        env_has_types(env, g),
        value_has_type(v, t),
    ensures
        env_has_types(env.bind(x, v), g.insert(x@, t)),
{
    let g2 = g.insert(x@, t);
    assert forall|n: Seq<char>| #[trigger] g2.dom().contains(n) implies binding_has_type(env.bind(x, v), n, g2[n]) by {
        if n != x@ {
            assert(binding_has_type(env, n, g[n]));
        }
    }
}

proof fn lemma_apply_has_type(fuel: nat, fv: Value, av: Value, a: Type, b: Type)
    requires
        value_has_type(fv, Type::Fun(Box::new(a), Box::new(b))),
        value_has_type(av, a),
    ensures
        match apply_spec(fuel, fv, av) {
            Some(Ok(v)) => value_has_type(v, b),
            Some(Err(_)) => false,
            None => true,
        },
    decreases fuel, 1nat,
{
    let ft = Type::Fun(Box::new(a), Box::new(b));
    match fv {
        Value::Closure(x, body, cenv) => {
            let g = choose|g: Map<Seq<char>, Type>|
                env_has_types(cenv, g) && #[trigger] typecheck_spec(g.insert(x@, a), *body)
                    == Ok::<Type, ErrorModel>(b);
            lemma_bind_has_types(cenv, g, x, av, a);
            lemma_eval_has_type(fuel, cenv.bind(x, av), g.insert(x@, a), *body, b);
        },
        Value::RecClosure(f, x, body, cenv) => {
            let g = choose|g: Map<Seq<char>, Type>|
                env_has_types(cenv, g) && #[trigger] typecheck_spec(g.insert(f@, ft).insert(x@, a), *body)
                    == Ok::<Type, ErrorModel>(b);
            lemma_bind_has_types(cenv, g, f, fv, ft);
            lemma_bind_has_types(cenv.bind(f, fv), g.insert(f@, ft), x, av, a);
            lemma_eval_has_type(
                fuel,
                cenv.bind(f, Value::RecClosure(f, x, body, cenv)).bind(x, av),
                g.insert(f@, ft).insert(x@, a),
                *body,
                b,
            );
        },
        _ => {},
    }
}

proof fn lemma_eval_two_has_types(
    fuel: nat,
    env: Env,
    g: Map<Seq<char>, Type>,
    a: Term,
    b: Term,
    ta: Type,
    tb: Type,
)
    requires
        env_has_types(env, g),
        typecheck_spec(g, a) == Ok::<Type, ErrorModel>(ta),
        typecheck_spec(g, b) == Ok::<Type, ErrorModel>(tb),
    ensures
        match eval_two(fuel, env, a, b) {
            Some(Ok((x, y))) => value_has_type(x, ta) && value_has_type(y, tb),
            Some(Err(_)) => false,
            None => true,
        },
    decreases fuel, 1nat,
{
    lemma_eval_has_type(fuel, env, g, a, ta);
    lemma_eval_has_type(fuel, env, g, b, tb);
}

/// Evaluating a term in an environment that fits the typing environment
/// never gives an error, and a value it gives has the term's type.
pub proof fn lemma_eval_has_type(fuel: nat, env: Env, g: Map<Seq<char>, Type>, term: Term, t: Type)
    requires
        env_has_types(env, g),
        typecheck_spec(g, term) == Ok::<Type, ErrorModel>(t),
    ensures
        match eval_spec(fuel, env, term) {
            Some(Ok(v)) => value_has_type(v, t),
            Some(Err(_)) => false,
            None => true,
        },
    decreases fuel, 0nat,
{
    if fuel > 0 {
        let f = (fuel - 1) as nat;
        match term {
            Term::Var(x) => {
                assert(g.dom().contains(x@));
                assert(binding_has_type(env, x@, g[x@]));
                lemma_lookup_has_type(env, x@, g[x@]);
            },
            Term::Fun(x, pt, body) => {
                let bt = typecheck_spec(g.insert(x@, pt), *body)->Ok_0;
                assert(env_has_types(env, g) && typecheck_spec(g.insert(x@, pt), *body)
                    == Ok::<Type, ErrorModel>(bt));
            },
            Term::Let(x, t1, t2) => {
                let vt = typecheck_spec(g, *t1)->Ok_0;
                lemma_eval_has_type(f, env, g, *t1, vt);
                if let Some(Ok(v)) = eval_spec(f, env, *t1) {
                    lemma_bind_has_types(env, g, x, v, vt);
                    lemma_eval_has_type(f, env.bind(x, v), g.insert(x@, vt), *t2, t);
                }
            },
            Term::LetFun(h, x, ft, body, rest) => {
                if let Type::Fun(pt, rt) = ft {
                    let rec = Value::RecClosure(h, x, body, env);
                    assert(env_has_types(env, g) && typecheck_spec(g.insert(h@, ft).insert(x@, *pt), *body)
                        == Ok::<Type, ErrorModel>(*rt));
                    assert(value_has_type(rec, ft));
                    lemma_bind_has_types(env, g, h, rec, ft);
                    lemma_eval_has_type(f, env.bind(h, rec), g.insert(h@, ft), *rest, t);
                }
            },
            Term::If(c, t1, t2) => {
                lemma_eval_has_type(f, env, g, *c, Type::Bool);
                lemma_eval_has_type(f, env, g, *t1, t);
                lemma_eval_has_type(f, env, g, *t2, t);
            },
            Term::App(t1, t2) => {
                let ft = typecheck_spec(g, *t1)->Ok_0;
                let at = typecheck_spec(g, *t2)->Ok_0;
                lemma_eval_two_has_types(f, env, g, *t1, *t2, ft, at);
                if let Some(Ok((fv, av))) = eval_two(f, env, *t1, *t2) {
                    if let Type::Fun(pt, rt) = ft {
                        assert(ft == Type::Fun(Box::new(*pt), Box::new(*rt)));
                        lemma_apply_has_type(f, fv, av, *pt, *rt);
                    }
                }
            },
            Term::Add(a, b) | Term::Sub(a, b) | Term::Mul(a, b) | Term::And(a, b) | Term::Less(a, b) => {
                assert(typecheck_spec(g, term) == typecheck_binary(g, term));
                let ta = typecheck_spec(g, *a)->Ok_0;
                let tb = typecheck_spec(g, *b)->Ok_0;
                lemma_eval_two_has_types(f, env, g, *a, *b, ta, tb);
            },
            Term::Not(a) => {
                lemma_eval_has_type(f, env, g, *a, Type::Bool);
            },
            _ => {},
        }
    }
}

/// Well-typed programs do not go wrong: when a closed term type checks with
/// type `t`, evaluating it never ends in an error (no undefined variable, no
/// operator applied to values of the wrong kind), and a value it gives has
/// type `t`. It may still run out of its bound on nesting or overflow.
pub proof fn lemma_well_typed_programs_do_not_go_wrong(fuel: nat, term: Term, t: Type)
    requires
        typecheck_spec(Map::empty(), term) == Ok::<Type, ErrorModel>(t),
    ensures
        match eval_spec(fuel, Env::Empty, term) {
            Some(Ok(v)) => value_has_type(v, t),
            Some(Err(_)) => false,
            None => true,
        },
{
    lemma_eval_has_type(fuel, Env::Empty, Map::empty(), term, t);
}

} // verus!
