//! Big-step evaluation of MiniImp programs.
//!
//! A `while` loop need not end, so commands are given their meaning with a
//! bound on the depth of nested evaluations: `exec_spec(fuel, ..)` is `None`
//! when the bound is reached, or when an `i64` operation overflows, where
//! the interpreter panics.
use vstd::prelude::*;
use crate::common::error::{EvalError, ErrorModel};
use crate::miniimp::ast::{BoolExpr, Cmd, Expr, Program};
use crate::miniimp::runtime::Memory;

verus! {

/// Is the integer in the range of `i64`?
pub open spec fn in_i64(x: int) -> bool {
    i64::MIN <= x <= i64::MAX
}

/// The value of an arithmetic expression in a memory; `None` when an
/// operation overflows.
pub open spec fn expr_spec(m: Map<Seq<char>, i64>, e: Expr) -> Option<Result<i64, ErrorModel>>
    decreases e,
{
    match e {
        Expr::Int(v) => Some(Ok(v)),
        Expr::Var(x) => if m.dom().contains(x@) {
            Some(Ok(m[x@]))
        } else {
            Some(Err(ErrorModel::UndefinedVariable(x@)))
        },
        Expr::Add(a, b) | Expr::Sub(a, b) | Expr::Mul(a, b) => match expr_spec(m, *a) {
            Some(Ok(x)) => match expr_spec(m, *b) {
                Some(Ok(y)) => {
                    let v = match e {
                        Expr::Add(_, _) => x + y,
                        Expr::Sub(_, _) => x - y,
                        _ => x * y,
                    };
                    if in_i64(v) {
                        Some(Ok(v as i64))
                    } else {
                        None
                    }
                },
                other => other,
            },
            other => other,
        },
    }
}

/// The value of a boolean expression in a memory; `None` when an
/// operation overflows.
pub open spec fn bool_spec(m: Map<Seq<char>, i64>, b: BoolExpr) -> Option<Result<bool, ErrorModel>>
    decreases b,
{
    match b {
        BoolExpr::True => Some(Ok(true)),
        BoolExpr::False => Some(Ok(false)),
        BoolExpr::And(p, q) => match bool_spec(m, *p) {
            Some(Ok(x)) => match bool_spec(m, *q) {
                Some(Ok(y)) => Some(Ok(x && y)),
                other => other,
            },
            other => other,
        },
        BoolExpr::Not(p) => match bool_spec(m, *p) {
            Some(Ok(x)) => Some(Ok(!x)),
            other => other,
        },
        BoolExpr::Less(a, c) => match expr_spec(m, *a) {
            Some(Ok(x)) => match expr_spec(m, *c) {
                Some(Ok(y)) => Some(Ok(x < y)),
                Some(Err(e)) => Some(Err(e)),
                None => None,
            },
            Some(Err(e)) => Some(Err(e)),
            None => None,
        },
    }
}

/// The memory after running a command, with at most `fuel` nested
/// evaluations; `None` when that is not enough or an operation overflows.
pub open spec fn exec_spec(fuel: nat, m: Map<Seq<char>, i64>, c: Cmd) -> Option<Result<Map<Seq<char>, i64>, ErrorModel>>
    decreases fuel,
{
    if fuel == 0 {
        None
    } else {
        let f = (fuel - 1) as nat;
        match c {
            Cmd::Skip => Some(Ok(m)),
            Cmd::Assign(x, e) => match expr_spec(m, e) {
                Some(Ok(v)) => Some(Ok(m.insert(x@, v))),
                Some(Err(err)) => Some(Err(err)),
                None => None,
            },
            Cmd::Sequence(a, b) => match exec_spec(f, m, *a) {
                Some(Ok(m2)) => exec_spec(f, m2, *b),
                other => other,
            },
            Cmd::If(cond, a, b) => match bool_spec(m, cond) {
                Some(Ok(true)) => exec_spec(f, m, *a),
                Some(Ok(false)) => exec_spec(f, m, *b),
                Some(Err(err)) => Some(Err(err)),
                None => None,
            },
            Cmd::While(cond, body) => match bool_spec(m, cond) {
                Some(Ok(true)) => match exec_spec(f, m, *body) {
                    Some(Ok(m2)) => exec_spec(f, m2, Cmd::While(cond, body)),
                    other => other,
                },
                Some(Ok(false)) => Some(Ok(m)),
                Some(Err(err)) => Some(Err(err)),
                None => None,
            },
        }
    }
}

/// The output of a program run on an input, with at most `fuel` nested
/// evaluations; `None` when that is not enough or an operation overflows.
pub open spec fn program_spec(fuel: nat, p: Program, input: i64) -> Option<Result<i64, ErrorModel>> {
    match exec_spec(fuel, Map::empty().insert(p.input_var@, input), p.body) {
        Some(Ok(m)) => if m.dom().contains(p.output_var@) {
            Some(Ok(m[p.output_var@]))
        } else {
            Some(Err(ErrorModel::OutputVariableUndefined(p.output_var@)))
        },
        Some(Err(e)) => Some(Err(e)),
        None => None,
    }
}

/// What each expression computes from the values of its parts: `+`, `-`,
/// `*` give `x + y`, `x - y`, `x * y` (no result outside the range of
/// `i64`), `<` the truth of `x < y`, `and` the conjunction and `not` the
/// negation; a variable has the value the memory gives it, `true` and
/// `false` their truth values.
pub proof fn lemma_expression_values(m: Map<Seq<char>, i64>, a: Expr, b: Expr, x: i64, y: i64, p: BoolExpr, q: BoolExpr, u: bool, w: bool)
    requires
        expr_spec(m, a) == Some(Ok::<i64, ErrorModel>(x)),
        expr_spec(m, b) == Some(Ok::<i64, ErrorModel>(y)),
        bool_spec(m, p) == Some(Ok::<bool, ErrorModel>(u)),
        bool_spec(m, q) == Some(Ok::<bool, ErrorModel>(w)),
    ensures
        expr_spec(m, Expr::Add(Box::new(a), Box::new(b)))
            == (if i64::MIN <= x + y <= i64::MAX { Some(Ok::<i64, ErrorModel>((x + y) as i64)) } else { None }),
        expr_spec(m, Expr::Sub(Box::new(a), Box::new(b)))
            == (if i64::MIN <= x - y <= i64::MAX { Some(Ok::<i64, ErrorModel>((x - y) as i64)) } else { None }),
        expr_spec(m, Expr::Mul(Box::new(a), Box::new(b)))
            == (if i64::MIN <= x * y <= i64::MAX { Some(Ok::<i64, ErrorModel>((x * y) as i64)) } else { None }),
        bool_spec(m, BoolExpr::Less(Box::new(a), Box::new(b))) == Some(Ok::<bool, ErrorModel>(x < y)),
        bool_spec(m, BoolExpr::And(Box::new(p), Box::new(q))) == Some(Ok::<bool, ErrorModel>(u && w)),
        bool_spec(m, BoolExpr::Not(Box::new(p))) == Some(Ok::<bool, ErrorModel>(!u)),
        bool_spec(m, BoolExpr::True) == Some(Ok::<bool, ErrorModel>(true)),
        bool_spec(m, BoolExpr::False) == Some(Ok::<bool, ErrorModel>(false)),
        forall|v: String| m.dom().contains(v@) ==> #[trigger] expr_spec(m, Expr::Var(v)) == Some(Ok::<i64, ErrorModel>(m[v@])),
{
}

/// What each command does: an assignment stores the value of its
/// expression, a sequence runs its second command on the memory the
/// first leaves, an `if` runs the branch its condition picks, and a loop
/// whose condition is false leaves the memory as it is.
pub proof fn lemma_command_steps(fuel: nat, m: Map<Seq<char>, i64>, x: String, e: Expr, v: i64, c1: Cmd, c2: Cmd, b: BoolExpr, u: bool)
    requires
        expr_spec(m, e) == Some(Ok::<i64, ErrorModel>(v)),
        bool_spec(m, b) == Some(Ok::<bool, ErrorModel>(u)),
    ensures
        exec_spec(fuel + 1, m, Cmd::Assign(x, e)) == Some(Ok::<Map<Seq<char>, i64>, ErrorModel>(m.insert(x@, v))),
        exec_spec(fuel, m, c1) matches Some(Ok(m1)) ==> exec_spec(fuel + 1, m, Cmd::Sequence(Box::new(c1), Box::new(c2)))
            == exec_spec(fuel, m1, c2),
        exec_spec(fuel + 1, m, Cmd::If(b, Box::new(c1), Box::new(c2)))
            == (if u { exec_spec(fuel, m, c1) } else { exec_spec(fuel, m, c2) }),
        !u ==> exec_spec(fuel + 1, m, Cmd::While(b, Box::new(c1))) == Some(Ok::<Map<Seq<char>, i64>, ErrorModel>(m)),
{
}

/// More fuel does not change a result that less fuel already gives.
pub proof fn lemma_exec_fuel_monotone(f1: nat, f2: nat, m: Map<Seq<char>, i64>, c: Cmd)
    requires
        f1 <= f2,
        exec_spec(f1, m, c) is Some,
    ensures
        exec_spec(f2, m, c) == exec_spec(f1, m, c),
    decreases f1,
{
    let g1 = (f1 - 1) as nat;
    let g2 = (f2 - 1) as nat;
    match c {
        Cmd::Sequence(a, b) => {
            lemma_exec_fuel_monotone(g1, g2, m, *a);
            if let Some(Ok(m2)) = exec_spec(g1, m, *a) {
                lemma_exec_fuel_monotone(g1, g2, m2, *b);
            }
        },
        Cmd::If(cond, a, b) => {
            if let Some(Ok(v)) = bool_spec(m, cond) {
                if v {
                    lemma_exec_fuel_monotone(g1, g2, m, *a);
                } else {
                    lemma_exec_fuel_monotone(g1, g2, m, *b);
                }
            }
        },
        Cmd::While(cond, body) => {
            if let Some(Ok(true)) = bool_spec(m, cond) {
                lemma_exec_fuel_monotone(g1, g2, m, *body);
                if let Some(Ok(m2)) = exec_spec(g1, m, *body) {
                    lemma_exec_fuel_monotone(g1, g2, m2, Cmd::While(cond, body));
                }
            }
        },
        _ => {},
    }
}

/// More fuel does not change the output that less fuel already gives.
pub proof fn lemma_program_fuel_monotone(f1: nat, f2: nat, p: Program, input: i64)
    requires
        f1 <= f2,
        program_spec(f1, p, input) is Some,
    ensures
        program_spec(f2, p, input) == program_spec(f1, p, input),
{
    lemma_exec_fuel_monotone(f1, f2, Map::empty().insert(p.input_var@, input), p.body);
}

/// The variables that a command assigns somewhere.
pub open spec fn cmd_targets(c: Cmd) -> Set<Seq<char>>
    decreases c,
{
    match c {
        Cmd::Skip => Set::empty(),
        Cmd::Assign(x, _) => set![x@],
        Cmd::Sequence(a, b) | Cmd::If(_, a, b) => cmd_targets(*a).union(cmd_targets(*b)),
        Cmd::While(_, body) => cmd_targets(*body),
    }
}

/// `m2` has every variable of `m`, gains only variables in `targets`, and
/// agrees with `m` on every variable outside `targets`.
pub open spec fn framed(m: Map<Seq<char>, i64>, m2: Map<Seq<char>, i64>, targets: Set<Seq<char>>) -> bool {
    &&& m.dom().subset_of(m2.dom())
    &&& forall|x: Seq<char>| #[trigger] m2.dom().contains(x) && !m.dom().contains(x) ==> targets.contains(x)
    &&& forall|x: Seq<char>| #[trigger] m.dom().contains(x) && !targets.contains(x) ==> m2[x] == m[x]
}

/// A run that ends normally keeps every variable of the memory, adds only
/// variables that the command assigns, and leaves unchanged every variable
/// that the command does not assign.
pub proof fn lemma_exec_frame(fuel: nat, m: Map<Seq<char>, i64>, c: Cmd)
    requires
        exec_spec(fuel, m, c) matches Some(Ok(_)),
    ensures
        framed(m, exec_spec(fuel, m, c)->Some_0->Ok_0, cmd_targets(c)),
    decreases fuel,
{
    let f = (fuel - 1) as nat;
    match c {
        Cmd::Sequence(a, b) => {
            let m1 = exec_spec(f, m, *a)->Some_0->Ok_0;
            lemma_exec_frame(f, m, *a);
            lemma_exec_frame(f, m1, *b);
        },
        Cmd::If(cond, a, b) => {
            if bool_spec(m, cond) == Some(Ok::<bool, ErrorModel>(true)) {
                lemma_exec_frame(f, m, *a);
            } else {
                lemma_exec_frame(f, m, *b);
            }
        },
        Cmd::While(cond, body) => {
            if bool_spec(m, cond) == Some(Ok::<bool, ErrorModel>(true)) {
                let m1 = exec_spec(f, m, *body)->Some_0->Ok_0;
                lemma_exec_frame(f, m, *body);
                lemma_exec_frame(f, m1, Cmd::While(cond, body));
            }
        },
        _ => {},
    }
}

/// `skip; c` and `c; skip` run as `c` does, with one more step.
pub proof fn lemma_skip_unit(fuel: nat, m: Map<Seq<char>, i64>, c: Cmd)
    ensures
        exec_spec(fuel + 1, m, Cmd::Sequence(Box::new(Cmd::Skip), Box::new(c))) == exec_spec(fuel, m, c),
        exec_spec(fuel + 1, m, Cmd::Sequence(Box::new(c), Box::new(Cmd::Skip))) == exec_spec(fuel, m, c),
{
    reveal_with_fuel(exec_spec, 2);
}

/// `(a; b); c` and `a; (b; c)` give the same result, the same error, or
/// both no result: whatever one gives with some bound, the other gives
/// with one more.
pub proof fn lemma_seq_assoc(fuel: nat, m: Map<Seq<char>, i64>, a: Cmd, b: Cmd, c: Cmd)
    ensures
        ({
            let left = Cmd::Sequence(Box::new(Cmd::Sequence(Box::new(a), Box::new(b))), Box::new(c));
            let right = Cmd::Sequence(Box::new(a), Box::new(Cmd::Sequence(Box::new(b), Box::new(c))));
            &&& exec_spec(fuel, m, left) is Some ==> exec_spec(fuel + 1, m, right) == exec_spec(fuel, m, left)
            &&& exec_spec(fuel, m, right) is Some ==> exec_spec(fuel + 1, m, left) == exec_spec(fuel, m, right)
        }),
{
    reveal_with_fuel(exec_spec, 3);
    let left = Cmd::Sequence(Box::new(Cmd::Sequence(Box::new(a), Box::new(b))), Box::new(c));
    let right = Cmd::Sequence(Box::new(a), Box::new(Cmd::Sequence(Box::new(b), Box::new(c))));
    if exec_spec(fuel, m, left) is Some {
        let f1 = (fuel - 1) as nat;
        let f2 = (fuel - 2) as nat;
        lemma_exec_fuel_monotone(f2, fuel, m, a);
        if let Some(Ok(m1)) = exec_spec(f2, m, a) {
            lemma_exec_fuel_monotone(f2, f1, m1, b);
            if let Some(Ok(m2)) = exec_spec(f2, m1, b) {
                assert(exec_spec(fuel, m1, Cmd::Sequence(Box::new(b), Box::new(c))) == exec_spec(f1, m2, c));
            }
        }
    }
    if exec_spec(fuel, m, right) is Some {
        let f1 = (fuel - 1) as nat;
        let f2 = (fuel - 2) as nat;
        if let Some(Ok(m1)) = exec_spec(f1, m, a) {
            lemma_exec_fuel_monotone(f2, f1, m1, b);
            if let Some(Ok(m2)) = exec_spec(f2, m1, b) {
                lemma_exec_fuel_monotone(f2, fuel, m2, c);
            }
        } else {
            lemma_exec_fuel_monotone(f1, fuel, m, a);
        }
        assert(exec_spec(fuel, m, Cmd::Sequence(Box::new(a), Box::new(b))) is Some);
    }
}

/// With a bound of at least one, the one-step unfolding of a loop gives
/// with one more what the loop gives.
proof fn lemma_while_step(fuel: nat, m: Map<Seq<char>, i64>, cond: BoolExpr, body: Cmd)
    requires
        fuel >= 1,
    ensures
        ({
            let w = Cmd::While(cond, Box::new(body));
            let u = Cmd::If(cond, Box::new(Cmd::Sequence(Box::new(body), Box::new(w))), Box::new(Cmd::Skip));
            exec_spec(fuel + 1, m, u) == exec_spec(fuel, m, w)
        }),
{
    reveal_with_fuel(exec_spec, 3);
}

/// A loop runs as its one-step unfolding `if g { body; loop } else { skip }`:
/// whatever the loop gives with some bound the unfolding gives with one
/// more, and whatever the unfolding gives the loop gives with the same.
pub proof fn lemma_while_unfold(fuel: nat, m: Map<Seq<char>, i64>, cond: BoolExpr, body: Cmd)
    ensures
        ({
            let w = Cmd::While(cond, Box::new(body));
            let u = Cmd::If(cond, Box::new(Cmd::Sequence(Box::new(body), Box::new(w))), Box::new(Cmd::Skip));
            &&& exec_spec(fuel, m, w) is Some ==> exec_spec(fuel + 1, m, u) == exec_spec(fuel, m, w)
            &&& exec_spec(fuel, m, u) is Some ==> exec_spec(fuel, m, w) == exec_spec(fuel, m, u)
        }),
{
    let w = Cmd::While(cond, Box::new(body));
    let u = Cmd::If(cond, Box::new(Cmd::Sequence(Box::new(body), Box::new(w))), Box::new(Cmd::Skip));
    if fuel >= 1 {
        lemma_while_step(fuel, m, cond, body);
    }
    if exec_spec(fuel, m, u) is Some {
        if fuel >= 2 {
            let f1 = (fuel - 1) as nat;
            lemma_while_step(f1, m, cond, body);
            lemma_exec_fuel_monotone(f1, fuel, m, w);
        } else {
            reveal_with_fuel(exec_spec, 3);
        }
    }
}

/// The largest bound on nesting that the interpreter uses.
pub open spec fn max_fuel() -> nat {
    u64::MAX as nat
}

/// A result taken with its error by view.
pub open spec fn value_outcome<T>(r: Option<Result<T, EvalError>>) -> Option<Result<T, ErrorModel>> {
    match r {
        Some(Ok(v)) => Some(Ok(v)),
        Some(Err(e)) => Some(Err(e@)),
        None => None,
    }
}

/// A memory result taken by view.
pub open spec fn memory_outcome(r: Option<Result<Memory, EvalError>>) -> Option<Result<Map<Seq<char>, i64>, ErrorModel>> {
    match r {
        Some(Ok(m)) => Some(Ok(m@)),
        Some(Err(e)) => Some(Err(e@)),
        None => None,
    }
}

/// Evaluates an arithmetic expression; `None` when an operation overflows.
pub fn eval_expr_checked(memory: &Memory, expr: &Expr) -> (r: Option<Result<i64, EvalError>>)
    ensures
        value_outcome(r) == expr_spec(memory@, *expr),
    decreases expr,
{
    match expr {
        Expr::Int(v) => Some(Ok(*v)),
        Expr::Var(x) => match memory.get(x) {
            Some(v) => Some(Ok(v)),
            None => Some(Err(EvalError::UndefinedVariable(x.clone()))),
        },
        Expr::Add(a, b) | Expr::Sub(a, b) | Expr::Mul(a, b) => {
            let x = match eval_expr_checked(memory, a) {
                Some(Ok(x)) => x,
                Some(Err(e)) => return Some(Err(e)),
                None => return None,
            };
            let y = match eval_expr_checked(memory, b) {
                Some(Ok(y)) => y,
                Some(Err(e)) => return Some(Err(e)),
                None => return None,
            };
            let v = match expr {
                Expr::Add(_, _) => x.checked_add(y),
                Expr::Sub(_, _) => x.checked_sub(y),
                _ => x.checked_mul(y),
            };
            match v {
                Some(v) => Some(Ok(v)),
                None => None,
            }
        },
    }
}

/// Evaluates an arithmetic expression in a memory. No operation may
/// overflow (the interpreter panics there).
pub fn eval_expr(memory: &Memory, expr: &Expr) -> (r: Result<i64, EvalError>)
    requires
        expr_spec(memory@, *expr) is Some,
    ensures
        value_outcome(Some(r)) == expr_spec(memory@, *expr),
{
    eval_expr_checked(memory, expr).unwrap()
}

/// Evaluates a boolean expression; `None` when an operation overflows.
pub fn eval_bool_checked(memory: &Memory, bool_expr: &BoolExpr) -> (r: Option<Result<bool, EvalError>>)
    ensures
        value_outcome(r) == bool_spec(memory@, *bool_expr),
    decreases bool_expr,
{
    match bool_expr {
        BoolExpr::True => Some(Ok(true)),
        BoolExpr::False => Some(Ok(false)),
        BoolExpr::And(p, q) => {
            let x = match eval_bool_checked(memory, p) {
                Some(Ok(x)) => x,
                Some(Err(e)) => return Some(Err(e)),
                None => return None,
            };
            let y = match eval_bool_checked(memory, q) {
                Some(Ok(y)) => y,
                Some(Err(e)) => return Some(Err(e)),
                None => return None,
            };
            Some(Ok(x && y))
        },
        BoolExpr::Not(p) => match eval_bool_checked(memory, p) {
            Some(Ok(x)) => Some(Ok(!x)),
            Some(Err(e)) => Some(Err(e)),
            None => None,
        },
        BoolExpr::Less(a, c) => {
            let x = match eval_expr_checked(memory, a) {
                Some(Ok(x)) => x,
                Some(Err(e)) => return Some(Err(e)),
                None => return None,
            };
            let y = match eval_expr_checked(memory, c) {
                Some(Ok(y)) => y,
                Some(Err(e)) => return Some(Err(e)),
                None => return None,
            };
            Some(Ok(x < y))
        },
    }
}

/// Evaluates a boolean expression in a memory. No operation may overflow
/// (the interpreter panics there).
pub fn eval_bool(memory: &Memory, bool_expr: &BoolExpr) -> (r: Result<bool, EvalError>)
    requires
        bool_spec(memory@, *bool_expr) is Some,
    ensures
        value_outcome(Some(r)) == bool_spec(memory@, *bool_expr),
{
    eval_bool_checked(memory, bool_expr).unwrap()
}

/// Runs a command with at most `fuel` nested evaluations: the memory after
/// it, an error, or `None` when the bound is reached or an operation
/// overflows.
pub fn eval_cmd_fuel(memory: &Memory, cmd: &Cmd, fuel: u64) -> (r: Option<Result<Memory, EvalError>>)
    ensures
        memory_outcome(r) == exec_spec(fuel as nat, memory@, *cmd),
    decreases fuel,
{
    if fuel == 0 {
        return None;
    }
    let f = fuel - 1;
    match cmd {
        Cmd::Skip => Some(Ok(memory.copy())),
        Cmd::Assign(name, expr) => match eval_expr_checked(memory, expr) {
            Some(Ok(v)) => {
                let mut updated = memory.copy();
                updated.insert(name.clone(), v);
                Some(Ok(updated))
            },
            Some(Err(e)) => Some(Err(e)),
            None => None,
        },
        Cmd::Sequence(first, second) => match eval_cmd_fuel(memory, first, f) {
            Some(Ok(m2)) => eval_cmd_fuel(&m2, second, f),
            Some(Err(e)) => Some(Err(e)),
            None => None,
        },
        Cmd::If(cond, then_branch, else_branch) => match eval_bool_checked(memory, cond) {
            Some(Ok(true)) => eval_cmd_fuel(memory, then_branch, f),
            Some(Ok(false)) => eval_cmd_fuel(memory, else_branch, f),
            Some(Err(e)) => Some(Err(e)),
            None => None,
        },
        Cmd::While(cond, body) => match eval_bool_checked(memory, cond) {
            Some(Ok(true)) => match eval_cmd_fuel(memory, body, f) {
                Some(Ok(m2)) => eval_cmd_fuel(&m2, cmd, f),
                Some(Err(e)) => Some(Err(e)),
                None => None,
            },
            Some(Ok(false)) => Some(Ok(memory.copy())),
            Some(Err(e)) => Some(Err(e)),
            None => None,
        },
    }
}

/// Runs a command in a memory and gives the memory after it. The run must
/// end normally: within the interpreter's bound on nesting and with no
/// overflow (the interpreter loops forever or panics otherwise).
pub fn eval_cmd(memory: &Memory, cmd: &Cmd) -> (r: Result<Memory, EvalError>)
    requires
        exec_spec(max_fuel(), memory@, *cmd) is Some,
    ensures
        memory_outcome(Some(r)) == exec_spec(max_fuel(), memory@, *cmd),
        r is Ok ==> framed(memory@, r->Ok_0@, cmd_targets(*cmd)),
{
    let r = eval_cmd_fuel(memory, cmd, u64::MAX).unwrap();
    proof {
        if r is Ok {
            lemma_exec_frame(max_fuel(), memory@, *cmd);
        }
    }
    r
}

/// Runs a program on an input with at most `fuel` nested evaluations: the
/// value of the output variable at the end, an error, or `None` when the
/// bound is reached or an operation overflows.
pub fn eval_program_fuel(program: &Program, input_value: i64, fuel: u64) -> (r: Option<Result<i64, EvalError>>)
    ensures
        value_outcome(r) == program_spec(fuel as nat, *program, input_value),
{
    let mut initial = Memory::new();
    initial.insert(program.input_var.clone(), input_value);
    match eval_cmd_fuel(&initial, &program.body, fuel) {
        Some(Ok(final_memory)) => match final_memory.get(&program.output_var) {
            Some(v) => Some(Ok(v)),
            None => Some(Err(EvalError::OutputVariableUndefined(program.output_var.clone()))),
        },
        Some(Err(e)) => Some(Err(e)),
        None => None,
    }
}

/// Runs a program on an input and gives the value of its output variable
/// at the end. The run must end normally (see `eval_cmd`).
pub fn eval_program(program: &Program, input_value: i64) -> (r: Result<i64, EvalError>)
    requires
        program_spec(max_fuel(), *program, input_value) is Some,
    ensures
        value_outcome(Some(r)) == program_spec(max_fuel(), *program, input_value),
{
    eval_program_fuel(program, input_value, u64::MAX).unwrap()
}

} // verus!
