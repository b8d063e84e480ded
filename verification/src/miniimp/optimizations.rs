//! Optimisations of MiniImp control-flow graphs: constant folding,
//! constant propagation and dead-store elimination, and a check for
//! variables that may be read before they are defined.
use vstd::prelude::*;
use crate::miniimp::ast::{BoolExpr, Expr};
use crate::miniimp::cfg::{Block, Cfg, CfgModel, Edge, Node, nodes_wf, edge_in};
use crate::miniimp::eval::{in_i64, expr_spec, bool_spec};
use crate::miniimp::dataflow::{
    ReachingAnnotatedCfg, reaching_definitions, live_variables, defined_variables,
    reach_rule_in, reach_rule_out, reaching_ins, reaching_outs, same_shape_reaching, live_rule_out,
    live_rule_in, variable_ins, variable_outs, same_shape_variable, defined_rule_in, defined_rule_out,
    assigned, defined_solution, defined_universe,
};
use crate::miniimp::fixpoint::{least_solution, lemma_least_solution_unique, lemma_greatest_solution_unique};
use crate::miniimp::cfg::ends_only_at_exit;
use crate::miniimp::cfg_semantics::{
    keeps_runs, keeps_output, lemma_folding_keeps_graph_runs, lemma_propagation_keeps_graph_runs,
    lemma_dse_keeps_graph_output, lemma_keeps_runs_compose, lemma_keeps_runs_then_output, lemma_keeps_runs_refl,
};
use crate::miniimp::sets::{Definition, DefinitionPlace};

verus! {

// ---------------------------------------------------------------------------
// Constant folding

/// Folds `l + r` whose operands are already folded; `None` when two
/// constants overflow.
pub open spec fn fold_add(ln: Expr, lc: bool, rn: Expr, rc: bool) -> Option<(Expr, bool)> {
    match (ln, rn) {
        (Expr::Int(a), Expr::Int(b)) => if in_i64(a + b) {
            Some((Expr::Int((a + b) as i64), true))
        } else {
            None
        },
        _ => if ln == Expr::Int(0) {
            Some((rn, true))
        } else if rn == Expr::Int(0) {
            Some((ln, true))
        } else {
            Some((Expr::Add(Box::new(ln), Box::new(rn)), lc || rc))
        },
    }
}

/// Folds `l - r` whose operands are already folded.
pub open spec fn fold_sub(ln: Expr, lc: bool, rn: Expr, rc: bool) -> Option<(Expr, bool)> {
    match (ln, rn) {
        (Expr::Int(a), Expr::Int(b)) => if in_i64(a - b) {
            Some((Expr::Int((a - b) as i64), true))
        } else {
            None
        },
        _ => if rn == Expr::Int(0) {
            Some((ln, true))
        } else {
            Some((Expr::Sub(Box::new(ln), Box::new(rn)), lc || rc))
        },
    }
}

/// Folds `l * r` whose operands are already folded.
pub open spec fn fold_mul(ln: Expr, lc: bool, rn: Expr, rc: bool) -> Option<(Expr, bool)> {
    match (ln, rn) {
        (Expr::Int(a), Expr::Int(b)) => if in_i64(a * b) {
            Some((Expr::Int((a * b) as i64), true))
        } else {
            None
        },
        _ => if ln == Expr::Int(0) || rn == Expr::Int(0) {
            Some((Expr::Int(0), true))
        } else if ln == Expr::Int(1) {
            Some((rn, true))
        } else if rn == Expr::Int(1) {
            Some((ln, true))
        } else {
            Some((Expr::Mul(Box::new(ln), Box::new(rn)), lc || rc))
        },
    }
}

/// An arithmetic expression with its constant parts computed and the
/// neutral operands dropped, and whether anything changed; `None` when
/// computing two constants overflows (where folding panics).
pub open spec fn fold_expr_spec(e: Expr) -> Option<(Expr, bool)>
    decreases e,
{
    match e {
        Expr::Int(_) | Expr::Var(_) => Some((e, false)),
        Expr::Add(l, r) | Expr::Sub(l, r) | Expr::Mul(l, r) => match (fold_expr_spec(*l), fold_expr_spec(*r)) {
            (Some((ln, lc)), Some((rn, rc))) => match e {
                Expr::Add(_, _) => fold_add(ln, lc, rn, rc),
                Expr::Sub(_, _) => fold_sub(ln, lc, rn, rc),
                _ => fold_mul(ln, lc, rn, rc),
            },
            _ => None,
        },
    }
}

/// A boolean expression with its constant parts computed, and whether
/// anything changed; `None` when folding an operand overflows.
pub open spec fn fold_bool_spec(b: BoolExpr) -> Option<(BoolExpr, bool)>
    decreases b,
{
    match b {
        BoolExpr::True => Some((BoolExpr::True, false)),
        BoolExpr::False => Some((BoolExpr::False, false)),
        BoolExpr::Less(l, r) => match (fold_expr_spec(*l), fold_expr_spec(*r)) {
            (Some((ln, lc)), Some((rn, rc))) => match (ln, rn) {
                (Expr::Int(x), Expr::Int(y)) => Some((if x < y { BoolExpr::True } else { BoolExpr::False }, true)),
                _ => Some((BoolExpr::Less(Box::new(ln), Box::new(rn)), lc || rc)),
            },
            _ => None,
        },
        BoolExpr::And(l, r) => match (fold_bool_spec(*l), fold_bool_spec(*r)) {
            (Some((ln, lc)), Some((rn, rc))) => if ln == BoolExpr::False || rn == BoolExpr::False {
                Some((BoolExpr::False, true))
            } else if ln == BoolExpr::True {
                Some((rn, true))
            } else if rn == BoolExpr::True {
                Some((ln, true))
            } else {
                Some((BoolExpr::And(Box::new(ln), Box::new(rn)), lc || rc))
            },
            _ => None,
        },
        BoolExpr::Not(inner) => match fold_bool_spec(*inner) {
            Some((n, c)) => if n == BoolExpr::True {
                Some((BoolExpr::False, true))
            } else if n == BoolExpr::False {
                Some((BoolExpr::True, true))
            } else {
                Some((BoolExpr::Not(Box::new(n)), c))
            },
            None => None,
        },
    }
}

/// A block after folding (unchanged when folding changed nothing), and
/// whether it changed.
pub open spec fn fold_block_spec(b: Block) -> Option<(Block, bool)> {
    match b {
        Block::Assignment(x, e) => match fold_expr_spec(e) {
            Some((ne, c)) => Some((if c { Block::Assignment(x, ne) } else { b }, c)),
            None => None,
        },
        Block::Condition(cond) => match fold_bool_spec(cond) {
            Some((nc, c)) => Some((if c { Block::Condition(nc) } else { b }, c)),
            None => None,
        },
        Block::Skip => Some((Block::Skip, false)),
    }
}

/// Folding no block of the graph overflows.
pub open spec fn folds_ok(ns: Seq<Node>) -> bool {
    forall|k: int| 0 <= k < ns.len() ==> (#[trigger] fold_block_spec(ns[k].block)) is Some
}

/// A node after folding its block.
pub open spec fn folded_node(n: Node) -> Node {
    Node { id: n.id, block: fold_block_spec(n.block)->Some_0.0, edge: n.edge }
}

/// The nodes after folding every block.
pub open spec fn folded_nodes(ns: Seq<Node>) -> Seq<Node> {
    ns.map_values(|n: Node| folded_node(n))
}

/// Folding changes some block of the graph.
pub open spec fn folds_change(ns: Seq<Node>) -> bool {
    exists|k: int| 0 <= k < ns.len() && (#[trigger] fold_block_spec(ns[k].block))->Some_0.1
}

fn is_int(e: &Expr, v: i64) -> (r: bool)
    ensures
        r == (*e == Expr::Int(v)),
{
    match e {
        Expr::Int(n) => *n == v,
        _ => false,
    }
}

fn is_true(b: &BoolExpr) -> (r: bool)
    ensures
        r == (*b == BoolExpr::True),
{
    matches!(b, BoolExpr::True)
}

fn is_false(b: &BoolExpr) -> (r: bool)
    ensures
        r == (*b == BoolExpr::False),
{
    matches!(b, BoolExpr::False)
}

/// Folds constants in an arithmetic expression; `None` when two constants
/// overflow.
fn fold_expr(expr: &Expr) -> (r: Option<(Expr, bool)>)
    ensures
        r == fold_expr_spec(*expr),
    decreases expr,
{
    match expr {
        Expr::Int(_) | Expr::Var(_) => Some((expr.copy(), false)),
        Expr::Add(left, right) | Expr::Sub(left, right) | Expr::Mul(left, right) => {
            let (left_new, left_changed) = match fold_expr(left) {
                Some(x) => x,
                None => return None,
            };
            let (right_new, right_changed) = match fold_expr(right) {
                Some(x) => x,
                None => return None,
            };
            if let (Expr::Int(a), Expr::Int(b)) = (&left_new, &right_new) {
                let v = match expr {
                    Expr::Add(_, _) => a.checked_add(*b),
                    Expr::Sub(_, _) => a.checked_sub(*b),
                    _ => a.checked_mul(*b),
                };
                return match v {
                    Some(v) => Some((Expr::Int(v), true)),
                    None => None,
                };
            }
            match expr {
                Expr::Add(_, _) => {
                    if is_int(&left_new, 0) {
                        Some((right_new, true))
                    } else if is_int(&right_new, 0) {
                        Some((left_new, true))
                    } else {
                        Some((Expr::Add(Box::new(left_new), Box::new(right_new)), left_changed || right_changed))
                    }
                },
                Expr::Sub(_, _) => {
                    if is_int(&right_new, 0) {
                        Some((left_new, true))
                    } else {
                        Some((Expr::Sub(Box::new(left_new), Box::new(right_new)), left_changed || right_changed))
                    }
                },
                _ => {
                    if is_int(&left_new, 0) || is_int(&right_new, 0) {
                        Some((Expr::Int(0), true))
                    } else if is_int(&left_new, 1) {
                        Some((right_new, true))
                    } else if is_int(&right_new, 1) {
                        Some((left_new, true))
                    } else {
                        Some((Expr::Mul(Box::new(left_new), Box::new(right_new)), left_changed || right_changed))
                    }
                },
            }
        },
    }
}

/// Folds constants in a boolean expression; `None` when folding an operand
/// overflows.
fn fold_bool(expr: &BoolExpr) -> (r: Option<(BoolExpr, bool)>)
    ensures
        r == fold_bool_spec(*expr),
    decreases expr,
{
    match expr {
        BoolExpr::True => Some((BoolExpr::True, false)),
        BoolExpr::False => Some((BoolExpr::False, false)),
        BoolExpr::Less(left, right) => {
            let (left_new, left_changed) = match fold_expr(left) {
                Some(x) => x,
                None => return None,
            };
            let (right_new, right_changed) = match fold_expr(right) {
                Some(x) => x,
                None => return None,
            };
            if let (Expr::Int(a), Expr::Int(b)) = (&left_new, &right_new) {
                if *a < *b {
                    return Some((BoolExpr::True, true));
                } else {
                    return Some((BoolExpr::False, true));
                }
            }
            Some((BoolExpr::Less(Box::new(left_new), Box::new(right_new)), left_changed || right_changed))
        },
        BoolExpr::And(left, right) => {
            let (left_new, left_changed) = match fold_bool(left) {
                Some(x) => x,
                None => return None,
            };
            let (right_new, right_changed) = match fold_bool(right) {
                Some(x) => x,
                None => return None,
            };
            if is_false(&left_new) || is_false(&right_new) {
                Some((BoolExpr::False, true))
            } else if is_true(&left_new) {
                Some((right_new, true))
            } else if is_true(&right_new) {
                Some((left_new, true))
            } else {
                Some((BoolExpr::And(Box::new(left_new), Box::new(right_new)), left_changed || right_changed))
            }
        },
        BoolExpr::Not(inner) => {
            let (inner_new, inner_changed) = match fold_bool(inner) {
                Some(x) => x,
                None => return None,
            };
            if is_true(&inner_new) {
                Some((BoolExpr::False, true))
            } else if is_false(&inner_new) {
                Some((BoolExpr::True, true))
            } else {
                Some((BoolExpr::Not(Box::new(inner_new)), inner_changed))
            }
        },
    }
}

fn fold_block(block: &Block) -> (r: Option<(Block, bool)>)
    ensures
        r == fold_block_spec(*block),
{
    match block {
        Block::Assignment(name, expr) => match fold_expr(expr) {
            Some((new_expr, did_change)) => {
                if did_change {
                    Some((Block::Assignment(name.clone(), new_expr), true))
                } else {
                    Some((block.copy(), false))
                }
            },
            None => None,
        },
        Block::Condition(cond) => match fold_bool(cond) {
            Some((new_cond, did_change)) => {
                if did_change {
                    Some((Block::Condition(new_cond), true))
                } else {
                    Some((block.copy(), false))
                }
            },
            None => None,
        },
        Block::Skip => Some((Block::Skip, false)),
    }
}

/// Constant folding on every block of the graph, with whether a block
/// changed; `None` when folding some block overflows (where the folding
/// pass panics).
pub fn try_constant_folding(cfg: &Cfg) -> (r: Option<(Cfg, bool)>)
    ensures
        match r {
            Some((c, changed)) => folds_ok(cfg.nodes@) && c@ == cfg@.with_nodes(folded_nodes(cfg.nodes@))
                && changed == folds_change(cfg.nodes@) && keeps_runs(cfg@, c@)
                && (changed <==> c.nodes@ != cfg.nodes@) && folds_ok(c.nodes@) && !folds_change(c.nodes@),
            None => !folds_ok(cfg.nodes@),
        },
{
    let mut new_cfg = cfg.copy();
    let mut changed = false;
    let n = cfg.nodes.len();
    let mut k: usize = 0;
    while k < n
        invariant
            n == cfg.nodes@.len(),
            k <= n,
            new_cfg.nodes@.len() == n,
            new_cfg@ == cfg@.with_nodes(new_cfg.nodes@),
            forall|j: int| 0 <= j < k ==> (#[trigger] fold_block_spec(cfg.nodes@[j].block)) is Some,
            forall|j: int| 0 <= j < k ==> #[trigger] new_cfg.nodes@[j] == folded_node(cfg.nodes@[j]),
            forall|j: int| k <= j < n ==> #[trigger] new_cfg.nodes@[j] == cfg.nodes@[j],
            changed == exists|j: int| 0 <= j < k && (#[trigger] fold_block_spec(cfg.nodes@[j].block))->Some_0.1,
        decreases n - k,
    {
        match fold_block(&cfg.nodes[k].block) {
            Some((block, did_change)) => {
                if did_change {
                    new_cfg.nodes[k].block = block;
                    changed = true;
                }
                assert(new_cfg.nodes@[k as int] == folded_node(cfg.nodes@[k as int]));
            },
            None => {
                return None;
            },
        }
        k = k + 1;
    }
    assert(new_cfg.nodes@ =~= folded_nodes(cfg.nodes@));
    proof {
        lemma_folding_keeps_graph_runs(cfg@);
        lemma_constant_folding_idempotent(cfg.nodes@);
    }
    Some((new_cfg, changed))
}

/// Constant folding on every block of the graph: the folded graph and
/// whether a block changed. Folding may not overflow (the pass panics
/// there; `try_constant_folding` reports it).
pub fn constant_folding(cfg: &Cfg) -> (r: (Cfg, bool))
    requires
        folds_ok(cfg.nodes@),
    ensures
        r.0@ == cfg@.with_nodes(folded_nodes(cfg.nodes@)),
        r.1 == folds_change(cfg.nodes@),
        keeps_runs(cfg@, r.0@),
        r.1 <==> r.0.nodes@ != cfg.nodes@,
        folds_ok(r.0.nodes@) && !folds_change(r.0.nodes@),
{
    try_constant_folding(cfg).unwrap()
}

// ---------------------------------------------------------------------------
// Folding keeps the meaning of expressions

/// Folding an expression that evaluates to a value does not overflow, and
/// the folded expression evaluates to the same value.
pub proof fn lemma_fold_expr_sound(m: Map<Seq<char>, i64>, e: Expr, v: i64)
    requires
        expr_spec(m, e) == Some(Ok::<i64, crate::common::error::ErrorModel>(v)),
    ensures
        fold_expr_spec(e) matches Some((f, _)) && expr_spec(m, f) == Some(Ok::<i64, crate::common::error::ErrorModel>(v)),
    decreases e,
{
    match e {
        Expr::Add(l, r) | Expr::Sub(l, r) | Expr::Mul(l, r) => {
            let a = expr_spec(m, *l)->Some_0->Ok_0;
            let b = expr_spec(m, *r)->Some_0->Ok_0;
            lemma_fold_expr_sound(m, *l, a);
            lemma_fold_expr_sound(m, *r, b);
            let (ln, lc) = fold_expr_spec(*l)->Some_0;
            let (rn, rc) = fold_expr_spec(*r)->Some_0;
            if let (Expr::Int(x), Expr::Int(y)) = (ln, rn) {
                assert(x == a && y == b);
            } else {
                if ln == Expr::Int(0) {
                    assert(a == 0);
                }
                if rn == Expr::Int(0) {
                    assert(b == 0);
                }
                if ln == Expr::Int(1) {
                    assert(a == 1);
                }
                if rn == Expr::Int(1) {
                    assert(b == 1);
                }
                assert(a * 0 == 0 && 0 * b == 0) by (nonlinear_arith);
            }
        },
        _ => {},
    }
}

/// Folding a boolean expression that evaluates to a value does not
/// overflow, and the folded expression evaluates to the same value.
pub proof fn lemma_fold_bool_sound(m: Map<Seq<char>, i64>, b: BoolExpr, v: bool)
    requires
        bool_spec(m, b) == Some(Ok::<bool, crate::common::error::ErrorModel>(v)),
    ensures
        fold_bool_spec(b) matches Some((f, _)) && bool_spec(m, f) == Some(Ok::<bool, crate::common::error::ErrorModel>(v)),
    decreases b,
{
    match b {
        BoolExpr::Less(l, r) => {
            let a = expr_spec(m, *l)->Some_0->Ok_0;
            let c = expr_spec(m, *r)->Some_0->Ok_0;
            lemma_fold_expr_sound(m, *l, a);
            lemma_fold_expr_sound(m, *r, c);
        },
        BoolExpr::And(l, r) => {
            let x = bool_spec(m, *l)->Some_0->Ok_0;
            let y = bool_spec(m, *r)->Some_0->Ok_0;
            lemma_fold_bool_sound(m, *l, x);
            lemma_fold_bool_sound(m, *r, y);
        },
        BoolExpr::Not(inner) => {
            let x = bool_spec(m, *inner)->Some_0->Ok_0;
            lemma_fold_bool_sound(m, *inner, x);
        },
        _ => {},
    }
}

// ---------------------------------------------------------------------------
// Folding reports exactly its changes and reaches a fixed point

/// The number of constructors in an arithmetic expression.
pub open spec fn expr_size(e: Expr) -> nat
    decreases e,
{
    match e {
        Expr::Int(_) | Expr::Var(_) => 1,
        Expr::Add(l, r) | Expr::Sub(l, r) | Expr::Mul(l, r) => 1 + expr_size(*l) + expr_size(*r),
    }
}

/// The number of constructors in a boolean expression.
pub open spec fn bool_size(b: BoolExpr) -> nat
    decreases b,
{
    match b {
        BoolExpr::True | BoolExpr::False => 1,
        BoolExpr::Less(l, r) => 1 + expr_size(*l) + expr_size(*r),
        BoolExpr::And(l, r) => 1 + bool_size(*l) + bool_size(*r),
        BoolExpr::Not(inner) => 1 + bool_size(*inner),
    }
}

/// Folding an arithmetic expression reports a change exactly when the
/// result differs from the expression, never makes it larger, and folding
/// the result again changes nothing.
pub proof fn lemma_fold_expr_exact(e: Expr)
    requires
        fold_expr_spec(e) is Some,
    ensures
        ({
            let (f, c) = fold_expr_spec(e)->Some_0;
            &&& c <==> f != e
            &&& expr_size(f) <= expr_size(e)
            &&& fold_expr_spec(f) == Some((f, false))
        }),
    decreases e,
{
    match e {
        Expr::Add(l, r) | Expr::Sub(l, r) | Expr::Mul(l, r) => {
            lemma_fold_expr_exact(*l);
            lemma_fold_expr_exact(*r);
            let (f, c) = fold_expr_spec(e)->Some_0;
            let (ln, lc) = fold_expr_spec(*l)->Some_0;
            let (rn, rc) = fold_expr_spec(*r)->Some_0;
            if f == e {
                assert(expr_size(f) == expr_size(e));
            }
            assert(fold_expr_spec(Expr::Int(0)) == Some((Expr::Int(0), false)));
        },
        _ => {},
    }
}

/// Folding a boolean expression reports a change exactly when the result
/// differs from the expression, never makes it larger, and folding the
/// result again changes nothing.
pub proof fn lemma_fold_bool_exact(b: BoolExpr)
    requires
        fold_bool_spec(b) is Some,
    ensures
        ({
            let (f, c) = fold_bool_spec(b)->Some_0;
            &&& c <==> f != b
            &&& bool_size(f) <= bool_size(b)
            &&& fold_bool_spec(f) == Some((f, false))
        }),
    decreases b,
{
    match b {
        BoolExpr::Less(l, r) => {
            lemma_fold_expr_exact(*l);
            lemma_fold_expr_exact(*r);
        },
        BoolExpr::And(l, r) => {
            lemma_fold_bool_exact(*l);
            lemma_fold_bool_exact(*r);
            let (f, c) = fold_bool_spec(b)->Some_0;
            if f == b {
                assert(bool_size(f) == bool_size(b));
            }
        },
        BoolExpr::Not(inner) => {
            lemma_fold_bool_exact(*inner);
        },
        _ => {},
    }
}

/// Folding a block reports a change exactly when the block changed, and
/// folding the result again changes nothing.
pub proof fn lemma_fold_block_exact(b: Block)
    requires
        fold_block_spec(b) is Some,
    ensures
        ({
            let (f, c) = fold_block_spec(b)->Some_0;
            &&& c <==> f != b
            &&& fold_block_spec(f) == Some((f, false))
        }),
{
    match b {
        Block::Assignment(x, e) => {
            lemma_fold_expr_exact(e);
        },
        Block::Condition(cond) => {
            lemma_fold_bool_exact(cond);
        },
        Block::Skip => {},
    }
}

/// Constant folding reports a change exactly when some block changed, and
/// a second pass over its result changes nothing: it does not overflow,
/// reports no change and gives back the same nodes.
pub proof fn lemma_constant_folding_idempotent(ns: Seq<Node>)
    requires
        folds_ok(ns),
    ensures
        folds_change(ns) <==> folded_nodes(ns) != ns,
        folds_ok(folded_nodes(ns)),
        !folds_change(folded_nodes(ns)),
        folded_nodes(folded_nodes(ns)) == folded_nodes(ns),
{
    let fs = folded_nodes(ns);
    assert forall|k: int| 0 <= k < ns.len() implies
        (#[trigger] fold_block_spec(fs[k].block)) == Some((fs[k].block, false))
        && (fold_block_spec(ns[k].block)->Some_0.1 <==> fs[k] != ns[k]) by {
        lemma_fold_block_exact(ns[k].block);
    }
    assert(folded_nodes(fs) =~= fs);
    if folds_change(ns) {
        let k = choose|k: int| 0 <= k < ns.len() && (#[trigger] fold_block_spec(ns[k].block))->Some_0.1;
        assert(fs[k] != ns[k]);
    }
    if fs != ns {
        assert(!(fs =~= ns));
        let k = choose|k: int| 0 <= k < ns.len() && fs[k] != ns[k];
        assert(fold_block_spec(ns[k].block)->Some_0.1);
    }
}

// ---------------------------------------------------------------------------
// Constant propagation

/// The definitions that reach the entry of each node (the least solution of
/// the reaching-definitions equations).
pub open spec fn reaching_at(g: CfgModel) -> Seq<Set<(Seq<char>, DefinitionPlace)>> {
    least_solution(reach_rule_in(g), reach_rule_out(g), g.nodes.len()).0
}

/// The definitions of `var` in a set of definitions.
pub open spec fn defs_of(s: Set<(Seq<char>, DefinitionPlace)>, var: Seq<char>) -> Set<(Seq<char>, DefinitionPlace)> {
    s.filter(|d: (Seq<char>, DefinitionPlace)| d.0 == var)
}

/// The constant that `var` surely has on entry to node `k`: exactly one
/// definition of it reaches there, and it is an assignment of a constant.
pub open spec fn constant_of(g: CfgModel, k: int, var: Seq<char>) -> Option<i64> {
    let defs = defs_of(reaching_at(g)[k], var);
    if 0 <= k < g.nodes.len() && exists|d: (Seq<char>, DefinitionPlace)| defs == set![d] {
        let d = choose|d: (Seq<char>, DefinitionPlace)| defs == set![d];
        match d.1 {
            DefinitionPlace::Input => None,
            DefinitionPlace::Node(m) => if m < g.nodes.len() {
                match g.nodes[m as int].block {
                    Block::Assignment(_, Expr::Int(v)) => Some(v),
                    _ => None,
                }
            } else {
                None
            },
        }
    } else {
        None
    }
}

/// An arithmetic expression of node `k` with each variable of known
/// constant value replaced by that value, and whether one was.
pub open spec fn propagate_expr_spec(g: CfgModel, k: int, e: Expr) -> (Expr, bool)
    decreases e,
{
    match e {
        Expr::Int(_) => (e, false),
        Expr::Var(x) => match constant_of(g, k, x@) {
            Some(v) => (Expr::Int(v), true),
            None => (e, false),
        },
        Expr::Add(l, r) | Expr::Sub(l, r) | Expr::Mul(l, r) => {
            let (ln, lc) = propagate_expr_spec(g, k, *l);
            let (rn, rc) = propagate_expr_spec(g, k, *r);
            let ne = match e {
                Expr::Add(_, _) => Expr::Add(Box::new(ln), Box::new(rn)),
                Expr::Sub(_, _) => Expr::Sub(Box::new(ln), Box::new(rn)),
                _ => Expr::Mul(Box::new(ln), Box::new(rn)),
            };
            (ne, lc || rc)
        },
    }
}

/// A boolean expression of node `k` with each variable of known constant
/// value replaced by that value, and whether one was.
pub open spec fn propagate_bool_spec(g: CfgModel, k: int, b: BoolExpr) -> (BoolExpr, bool)
    decreases b,
{
    match b {
        BoolExpr::True => (BoolExpr::True, false),
        BoolExpr::False => (BoolExpr::False, false),
        BoolExpr::Less(l, r) => {
            let (ln, lc) = propagate_expr_spec(g, k, *l);
            let (rn, rc) = propagate_expr_spec(g, k, *r);
            (BoolExpr::Less(Box::new(ln), Box::new(rn)), lc || rc)
        },
        BoolExpr::And(l, r) => {
            let (ln, lc) = propagate_bool_spec(g, k, *l);
            let (rn, rc) = propagate_bool_spec(g, k, *r);
            (BoolExpr::And(Box::new(ln), Box::new(rn)), lc || rc)
        },
        BoolExpr::Not(inner) => {
            let (n, c) = propagate_bool_spec(g, k, *inner);
            (BoolExpr::Not(Box::new(n)), c)
        },
    }
}

/// The block of node `k` after propagation (unchanged when nothing was
/// replaced), and whether it changed.
pub open spec fn propagate_block_spec(g: CfgModel, k: int) -> (Block, bool) {
    let b = g.nodes[k].block;
    match b {
        Block::Assignment(x, e) => {
            let (ne, c) = propagate_expr_spec(g, k, e);
            (if c { Block::Assignment(x, ne) } else { b }, c)
        },
        Block::Condition(cond) => {
            let (nc, c) = propagate_bool_spec(g, k, cond);
            (if c { Block::Condition(nc) } else { b }, c)
        },
        Block::Skip => (b, false),
    }
}

/// The nodes after constant propagation.
pub open spec fn propagated_nodes(g: CfgModel) -> Seq<Node> {
    Seq::new(
        g.nodes.len(),
        |k: int| Node { id: g.nodes[k].id, block: propagate_block_spec(g, k).0, edge: g.nodes[k].edge },
    )
}

/// Propagation changes some block of the graph.
pub open spec fn propagation_changes(g: CfgModel) -> bool {
    exists|k: int| 0 <= k < g.nodes.len() && (#[trigger] propagate_block_spec(g, k)).1
}

/// The constant that `variable` surely has on entry to node `node_id`,
/// from the reaching definitions of the graph.
fn find_constant(cfg: &Cfg, reaching: &ReachingAnnotatedCfg, node_id: usize, variable: &String) -> (r: Option<i64>)
    requires
        cfg.wf(),
        same_shape_reaching(*reaching, cfg@),
        reaching_ins(*reaching) == reaching_at(cfg@),
    ensures
        r == constant_of(cfg@, node_id as int, variable@),
{
    let ghost g = cfg@;
    let ghost defs = defs_of(reaching_at(g)[node_id as int], variable@);
    if node_id >= reaching.nodes.len() {
        return None;
    }
    let current = &reaching.nodes[node_id];
    assert(current.annotation.in_set@ == reaching_at(g)[node_id as int]);
    let list = current.annotation.in_set.definitions();
    let mut found: Option<&Definition> = None;
    let mut i: usize = 0;
    while i < list.len()
        invariant
            g == cfg@,
            i <= list@.len(),
            crate::miniimp::sets::def_set(list@) == reaching_at(g)[node_id as int],
            defs == defs_of(reaching_at(g)[node_id as int], variable@),
            match found {
                None => forall|j: int| 0 <= j < i ==> (#[trigger] list@[j]).variable@ != variable@,
                Some(d) => d.variable@ == variable@ && defs.contains(d@)
                    && forall|j: int| 0 <= j < i && (#[trigger] list@[j]).variable@ == variable@ ==> list@[j]@ == d@,
            },
        decreases list@.len() - i,
    {
        let def = &list[i];
        proof {
            crate::miniimp::sets::lemma_def_set_contains(list@, def@);
            assert(list@[i as int]@ == def@);
            assert(reaching_at(g)[node_id as int].contains(def@));
        }
        if def.variable.eq(variable) {
            match found {
                None => {
                    found = Some(def);
                },
                Some(d) => {
                    if !d.same(def) {
                        proof {
                            assert(def@.0 == variable@);
                            assert(defs.contains(def@));
                            assert(def@ != d@);
                            assert(!exists|x: (Seq<char>, DefinitionPlace)| defs == set![x]) by {
                                if exists|x: (Seq<char>, DefinitionPlace)| defs == set![x] {
                                    let x = choose|x: (Seq<char>, DefinitionPlace)| defs == set![x];
                                    assert(set![x].contains(def@) && set![x].contains(d@));
                                }
                            }
                        }
                        return None;
                    }
                },
            }
        }
        i = i + 1;
    }
    let def = match found {
        None => {
            proof {
                assert(!exists|x: (Seq<char>, DefinitionPlace)| defs == set![x]) by {
                    if exists|x: (Seq<char>, DefinitionPlace)| defs == set![x] {
                        let x = choose|x: (Seq<char>, DefinitionPlace)| defs == set![x];
                        assert(defs.contains(x));
                        crate::miniimp::sets::lemma_def_set_contains(list@, x);
                        let j = choose|j: int| 0 <= j < list@.len() && (#[trigger] list@[j])@ == x;
                    }
                }
            }
            return None;
        },
        Some(d) => d,
    };
    proof {
        assert(defs =~= set![def@]) by {
            assert forall|x: (Seq<char>, DefinitionPlace)| defs.contains(x) implies x == def@ by {
                crate::miniimp::sets::lemma_def_set_contains(list@, x);
                let j = choose|j: int| 0 <= j < list@.len() && (#[trigger] list@[j])@ == x;
            }
        }
        assert(exists|x: (Seq<char>, DefinitionPlace)| defs == set![x]);
        let x = choose|x: (Seq<char>, DefinitionPlace)| defs == set![x];
        assert(set![x].contains(def@));
    }
    match def.place {
        DefinitionPlace::Input => None,
        DefinitionPlace::Node(def_node_id) => {
            if def_node_id >= cfg.nodes.len() {
                return None;
            }
            match &cfg.nodes[def_node_id].block {
                Block::Assignment(_, Expr::Int(value)) => Some(*value),
                _ => None,
            }
        },
    }
}

/// Replaces the variables of known constant value in an arithmetic
/// expression of node `node_id`.
fn propagate_expr(cfg: &Cfg, reaching: &ReachingAnnotatedCfg, node_id: usize, expr: &Expr) -> (r: (Expr, bool))
    requires
        cfg.wf(),
        same_shape_reaching(*reaching, cfg@),
        reaching_ins(*reaching) == reaching_at(cfg@),
    ensures
        r == propagate_expr_spec(cfg@, node_id as int, *expr),
    decreases expr,
{
    match expr {
        Expr::Int(_) => (expr.copy(), false),
        Expr::Var(name) => {
            if let Some(value) = find_constant(cfg, reaching, node_id, name) {
                (Expr::Int(value), true)
            } else {
                (expr.copy(), false)
            }
        },
        Expr::Add(left, right) => {
            let (left_new, left_changed) = propagate_expr(cfg, reaching, node_id, left);
            let (right_new, right_changed) = propagate_expr(cfg, reaching, node_id, right);
            (Expr::Add(Box::new(left_new), Box::new(right_new)), left_changed || right_changed)
        },
        Expr::Sub(left, right) => {
            let (left_new, left_changed) = propagate_expr(cfg, reaching, node_id, left);
            let (right_new, right_changed) = propagate_expr(cfg, reaching, node_id, right);
            (Expr::Sub(Box::new(left_new), Box::new(right_new)), left_changed || right_changed)
        },
        Expr::Mul(left, right) => {
            let (left_new, left_changed) = propagate_expr(cfg, reaching, node_id, left);
            let (right_new, right_changed) = propagate_expr(cfg, reaching, node_id, right);
            (Expr::Mul(Box::new(left_new), Box::new(right_new)), left_changed || right_changed)
        },
    }
}

/// Replaces the variables of known constant value in a boolean expression
/// of node `node_id`.
fn propagate_bool(cfg: &Cfg, reaching: &ReachingAnnotatedCfg, node_id: usize, expr: &BoolExpr) -> (r: (BoolExpr, bool))
    requires
        cfg.wf(),
        same_shape_reaching(*reaching, cfg@),
        reaching_ins(*reaching) == reaching_at(cfg@),
    ensures
        r == propagate_bool_spec(cfg@, node_id as int, *expr),
    decreases expr,
{
    match expr {
        BoolExpr::True => (BoolExpr::True, false),
        BoolExpr::False => (BoolExpr::False, false),
        BoolExpr::Less(left, right) => {
            let (left_new, left_changed) = propagate_expr(cfg, reaching, node_id, left);
            let (right_new, right_changed) = propagate_expr(cfg, reaching, node_id, right);
            (BoolExpr::Less(Box::new(left_new), Box::new(right_new)), left_changed || right_changed)
        },
        BoolExpr::And(left, right) => {
            let (left_new, left_changed) = propagate_bool(cfg, reaching, node_id, left);
            let (right_new, right_changed) = propagate_bool(cfg, reaching, node_id, right);
            (BoolExpr::And(Box::new(left_new), Box::new(right_new)), left_changed || right_changed)
        },
        BoolExpr::Not(inner) => {
            let (inner_new, inner_changed) = propagate_bool(cfg, reaching, node_id, inner);
            (BoolExpr::Not(Box::new(inner_new)), inner_changed)
        },
    }
}

/// Constant propagation: in every block, a variable that surely holds a
/// constant (exactly one definition of it reaches the block, and that
/// definition assigns a constant) is replaced by the constant. Gives the new
/// graph and whether a block changed.
pub fn constant_propagation(cfg: &Cfg) -> (r: (Cfg, bool))
    requires
        cfg.wf(),
    ensures
        r.0@ == cfg@.with_nodes(propagated_nodes(cfg@)),
        r.1 == propagation_changes(cfg@),
        keeps_runs(cfg@, r.0@),
{
    let reaching = reaching_definitions(cfg);
    proof {
        lemma_least_solution_unique(
            reach_rule_in(cfg@),
            reach_rule_out(cfg@),
            cfg@.nodes.len(),
            reaching_ins(reaching),
            reaching_outs(reaching),
        );
    }
    let mut new_cfg = cfg.copy();
    let mut changed = false;
    let n = cfg.nodes.len();
    let mut k: usize = 0;
    while k < n
        invariant
            n == cfg.nodes@.len(),
            cfg.wf(),
            same_shape_reaching(reaching, cfg@),
            reaching_ins(reaching) == reaching_at(cfg@),
            k <= n,
            new_cfg.nodes@.len() == n,
            new_cfg@ == cfg@.with_nodes(new_cfg.nodes@),
            forall|j: int| 0 <= j < k ==> #[trigger] new_cfg.nodes@[j] == propagated_nodes(cfg@)[j],
            forall|j: int| k <= j < n ==> #[trigger] new_cfg.nodes@[j] == cfg.nodes@[j],
            changed == exists|j: int| 0 <= j < k && (#[trigger] propagate_block_spec(cfg@, j)).1,
        decreases n - k,
    {
        let node = &cfg.nodes[k];
        assert(node.id == k);
        let (block, did_change) = match &node.block {
            Block::Assignment(name, expr) => {
                let (new_expr, c) = propagate_expr(cfg, &reaching, node.id, expr);
                (Block::Assignment(name.clone(), new_expr), c)
            },
            Block::Condition(cond) => {
                let (new_cond, c) = propagate_bool(cfg, &reaching, node.id, cond);
                (Block::Condition(new_cond), c)
            },
            Block::Skip => (Block::Skip, false),
        };
        if did_change {
            new_cfg.nodes[k].block = block;
            changed = true;
        }
        assert(new_cfg.nodes@[k as int] == propagated_nodes(cfg@)[k as int]);
        k = k + 1;
    }
    assert(new_cfg.nodes@ =~= propagated_nodes(cfg@));
    proof {
        lemma_propagation_keeps_graph_runs(cfg@);
    }
    (new_cfg, changed)
}

// ---------------------------------------------------------------------------
// Dead-store elimination

/// The variables live on exit from each node (the least solution of the
/// live-variables equations).
pub open spec fn live_at_exit(g: CfgModel) -> Seq<Set<Seq<char>>> {
    least_solution(live_rule_out(g), live_rule_in(g), g.nodes.len()).0
}

/// Node `k` assigns a variable that is not live on exit from it.
pub open spec fn is_dead_store(g: CfgModel, k: int) -> bool {
    match assigned(g.nodes[k].block) {
        Some(x) => !live_at_exit(g)[k].contains(x),
        None => false,
    }
}

/// The nodes with every dead store replaced by a skip.
pub open spec fn without_dead_stores(g: CfgModel) -> Seq<Node> {
    Seq::new(
        g.nodes.len(),
        |k: int| if is_dead_store(g, k) {
            Node { id: g.nodes[k].id, block: Block::Skip, edge: g.nodes[k].edge }
        } else {
            g.nodes[k]
        },
    )
}

/// Some node is a dead store.
pub open spec fn has_dead_store(g: CfgModel) -> bool {
    exists|k: int| 0 <= k < g.nodes.len() && #[trigger] is_dead_store(g, k)
}

/// Dead-store elimination: every assignment whose variable is not live
/// after it becomes a skip. Gives the new graph and whether a node changed.
pub fn dead_store_elimination(cfg: &Cfg) -> (r: (Cfg, bool))
    requires
        cfg.wf(),
    ensures
        r.0@ == cfg@.with_nodes(without_dead_stores(cfg@)),
        r.1 == has_dead_store(cfg@),
        ends_only_at_exit(cfg@) ==> keeps_output(cfg@, r.0@),
{
    let live = live_variables(cfg);
    proof {
        lemma_least_solution_unique(
            live_rule_out(cfg@),
            live_rule_in(cfg@),
            cfg@.nodes.len(),
            variable_outs(live),
            variable_ins(live),
        );
    }
    let mut new_cfg = cfg.copy();
    let mut changed = false;
    let n = live.nodes.len();
    let mut k: usize = 0;
    while k < n
        invariant
            n == cfg.nodes@.len(),
            cfg.wf(),
            same_shape_variable(live, cfg@),
            variable_outs(live) == live_at_exit(cfg@),
            k <= n,
            new_cfg.nodes@.len() == n,
            new_cfg@ == cfg@.with_nodes(new_cfg.nodes@),
            forall|j: int| 0 <= j < k ==> #[trigger] new_cfg.nodes@[j] == without_dead_stores(cfg@)[j],
            forall|j: int| k <= j < n ==> #[trigger] new_cfg.nodes@[j] == cfg.nodes@[j],
            changed == exists|j: int| 0 <= j < k && #[trigger] is_dead_store(cfg@, j),
        decreases n - k,
    {
        let node = &live.nodes[k];
        assert(node.id == k);
        assert(node.annotation.out_set@ == live_at_exit(cfg@)[k as int]);
        if let Some(var) = assigned_variable(&node.block) {
            if !node.annotation.out_set.contains(&var) {
                new_cfg.nodes[node.id].block = Block::Skip;
                changed = true;
            }
        }
        assert(new_cfg.nodes@[k as int] == without_dead_stores(cfg@)[k as int]);
        k = k + 1;
    }
    assert(new_cfg.nodes@ =~= without_dead_stores(cfg@));
    proof {
        if ends_only_at_exit(cfg@) {
            lemma_dse_keeps_graph_output(cfg@);
        }
    }
    (new_cfg, changed)
}

/// The variable that a block assigns, if any.
fn assigned_variable(block: &Block) -> (r: Option<String>)
    ensures
        match r {
            Some(x) => assigned(*block) == Some(x@),
            None => assigned(*block) is None,
        },
{
    match block {
        Block::Assignment(name, _) => Some(name.clone()),
        _ => None,
    }
}

// ---------------------------------------------------------------------------
// The optimisation pipeline

/// Nodes with the same ids and edges as well-formed ones are well formed.
pub proof fn lemma_same_links_wf(ns: Seq<Node>, ns2: Seq<Node>)
    requires
        nodes_wf(ns),
        ns2.len() == ns.len(),
        forall|k: int| 0 <= k < ns.len() ==> (#[trigger] ns2[k]).id == ns[k].id && ns2[k].edge == ns[k].edge,
    ensures
        nodes_wf(ns2),
{
    assert forall|i: int| 0 <= i < ns2.len() implies (#[trigger] ns2[i]).id == i && edge_in(ns2[i].edge, ns2.len() as int) by {
        assert(ns[i].id == i && edge_in(ns[i].edge, ns.len() as int));
    }
}

/// Every pass of the pipeline keeps the graph well formed, and keeps its
/// exit the only node without an edge out.
pub proof fn lemma_passes_keep_wf(g: CfgModel)
    requires
        g.wf(),
    ensures
        g.with_nodes(propagated_nodes(g)).wf(),
        g.with_nodes(without_dead_stores(g)).wf(),
        folds_ok(g.nodes) ==> g.with_nodes(folded_nodes(g.nodes)).wf(),
        ends_only_at_exit(g) ==> ends_only_at_exit(g.with_nodes(propagated_nodes(g))),
        ends_only_at_exit(g) && folds_ok(g.nodes) ==> ends_only_at_exit(g.with_nodes(folded_nodes(g.nodes))),
{
    lemma_same_links_wf(g.nodes, propagated_nodes(g));
    lemma_same_links_wf(g.nodes, without_dead_stores(g));
    if folds_ok(g.nodes) {
        lemma_same_links_wf(g.nodes, folded_nodes(g.nodes));
    }
    if ends_only_at_exit(g) {
        let p = g.with_nodes(propagated_nodes(g));
        assert forall|k: int| 0 <= k < p.nodes.len() && (#[trigger] p.nodes[k]).edge == Edge::End implies k == p.end as int by {
            assert(g.nodes[k].edge == Edge::End);
        }
        if folds_ok(g.nodes) {
            let q = g.with_nodes(folded_nodes(g.nodes));
            assert forall|k: int| 0 <= k < q.nodes.len() && (#[trigger] q.nodes[k]).edge == Edge::End implies k == q.end as int by {
                assert(g.nodes[k].edge == Edge::End);
            }
        }
    }
}

/// One round of the pipeline: constant propagation, then constant folding;
/// the new graph and whether either pass changed something; `None` when
/// folding overflows.
pub open spec fn opt_round(g: CfgModel) -> Option<(CfgModel, bool)> {
    let p = g.with_nodes(propagated_nodes(g));
    if folds_ok(p.nodes) {
        Some((p.with_nodes(folded_nodes(p.nodes)), propagation_changes(g) || folds_change(p.nodes)))
    } else {
        None
    }
}

/// At most `rounds` rounds, stopping after one that changes nothing.
pub open spec fn opt_rounds(g: CfgModel, rounds: nat) -> Option<CfgModel>
    decreases rounds,
{
    if rounds == 0 {
        Some(g)
    } else {
        match opt_round(g) {
            Some((g2, changed)) => if changed {
                opt_rounds(g2, (rounds - 1) as nat)
            } else {
                Some(g2)
            },
            None => None,
        }
    }
}

/// The pipeline: at most ten rounds of propagation and folding, then
/// dead-store elimination; `None` when folding overflows.
pub open spec fn optimize_spec(g: CfgModel) -> Option<CfgModel> {
    match opt_rounds(g, 10) {
        Some(g2) => Some(g2.with_nodes(without_dead_stores(g2))),
        None => None,
    }
}

/// The rounds of propagation and folding keep every run of a well-formed
/// graph that reaches the exit, and keep it well formed with the same
/// output variable and the same nodes without an edge out.
proof fn lemma_rounds_keep_runs(g: CfgModel, rounds: nat)
    requires
        g.wf(),
        opt_rounds(g, rounds) is Some,
    ensures
        ({
            let h = opt_rounds(g, rounds)->Some_0;
            &&& keeps_runs(g, h)
            &&& h.wf()
            &&& h.output_var == g.output_var
            &&& ends_only_at_exit(g) ==> ends_only_at_exit(h)
        }),
    decreases rounds,
{
    if rounds == 0 {
        lemma_keeps_runs_refl(g);
    } else {
        let p = g.with_nodes(propagated_nodes(g));
        lemma_passes_keep_wf(g);
        lemma_propagation_keeps_graph_runs(g);
        lemma_passes_keep_wf(p);
        lemma_folding_keeps_graph_runs(p);
        let q = p.with_nodes(folded_nodes(p.nodes));
        lemma_keeps_runs_compose(g, p, q);
        let (g2, changed) = opt_round(g)->Some_0;
        assert(g2 == q);
        if changed {
            lemma_rounds_keep_runs(g2, (rounds - 1) as nat);
            lemma_keeps_runs_compose(g, g2, opt_rounds(g, rounds)->Some_0);
        }
    }
}

/// The optimisation pipeline keeps the output of every run of a
/// well-formed graph that reaches the exit, when its exit is its only node
/// without an edge out.
pub proof fn lemma_optimize_keeps_output(g: CfgModel)
    requires
        g.wf(),
        ends_only_at_exit(g),
        optimize_spec(g) is Some,
    ensures
        keeps_output(g, optimize_spec(g)->Some_0),
{
    lemma_rounds_keep_runs(g, 10);
    let h = opt_rounds(g, 10)->Some_0;
    lemma_dse_keeps_graph_output(h);
    lemma_keeps_runs_then_output(g, h, h.with_nodes(without_dead_stores(h)));
}

/// A block that an optimisation may put in place of `old`: a skip stays a
/// skip, an assignment stays an assignment to the same variable or becomes
/// a skip, and a condition stays a condition.
pub open spec fn block_simplified(old: Block, new: Block) -> bool {
    match old {
        Block::Skip => new == Block::Skip,
        Block::Assignment(x, _) => new == Block::Skip || (new matches Block::Assignment(y, _) && y@ == x@),
        Block::Condition(_) => new is Condition,
    }
}

/// `h` has the start, exit, input and output variables, nodes, ids and
/// edges of `g`, and each of its blocks is a simplification of the block of
/// `g` in the same place.
pub open spec fn keeps_links(g: CfgModel, h: CfgModel) -> bool {
    &&& h.start == g.start
    &&& h.end == g.end
    &&& h.input_var == g.input_var
    &&& h.output_var == g.output_var
    &&& h.nodes.len() == g.nodes.len()
    &&& forall|k: int| 0 <= k < g.nodes.len() ==> {
        &&& (#[trigger] h.nodes[k]).id == g.nodes[k].id
        &&& h.nodes[k].edge == g.nodes[k].edge
        &&& block_simplified(g.nodes[k].block, h.nodes[k].block)
    }
}

/// `keeps_links` composes.
proof fn lemma_keeps_links_compose(g: CfgModel, h: CfgModel, i: CfgModel)
    requires
        keeps_links(g, h),
        keeps_links(h, i),
    ensures
        keeps_links(g, i),
{
    assert forall|k: int| 0 <= k < g.nodes.len() implies block_simplified(g.nodes[k].block, (#[trigger] i.nodes[k]).block) by {
        assert(block_simplified(g.nodes[k].block, h.nodes[k].block));
        assert(block_simplified(h.nodes[k].block, i.nodes[k].block));
    }
}

/// Each pass keeps the links of the graph and only simplifies its blocks.
proof fn lemma_passes_keep_links(g: CfgModel)
    ensures
        keeps_links(g, g),
        keeps_links(g, g.with_nodes(propagated_nodes(g))),
        keeps_links(g, g.with_nodes(without_dead_stores(g))),
        folds_ok(g.nodes) ==> keeps_links(g, g.with_nodes(folded_nodes(g.nodes))),
{
    assert forall|k: int| 0 <= k < g.nodes.len() implies block_simplified(g.nodes[k].block, (#[trigger] g.nodes[k]).block) by {}
    assert forall|k: int| 0 <= k < g.nodes.len() implies
        block_simplified(g.nodes[k].block, (#[trigger] propagated_nodes(g)[k]).block) by {}
    assert forall|k: int| 0 <= k < g.nodes.len() implies
        block_simplified(g.nodes[k].block, (#[trigger] without_dead_stores(g)[k]).block) by {}
    if folds_ok(g.nodes) {
        assert forall|k: int| 0 <= k < g.nodes.len() implies
            block_simplified(g.nodes[k].block, (#[trigger] folded_nodes(g.nodes)[k]).block) by {
            assert(fold_block_spec(g.nodes[k].block) is Some);
        }
    }
}

/// The rounds of propagation and folding keep the links of the graph.
proof fn lemma_rounds_keep_links(g: CfgModel, rounds: nat)
    requires
        opt_rounds(g, rounds) is Some,
    ensures
        keeps_links(g, opt_rounds(g, rounds)->Some_0),
    decreases rounds,
{
    lemma_passes_keep_links(g);
    if rounds > 0 {
        let p = g.with_nodes(propagated_nodes(g));
        lemma_passes_keep_links(p);
        lemma_keeps_links_compose(g, p, p.with_nodes(folded_nodes(p.nodes)));
        let (g2, changed) = opt_round(g)->Some_0;
        if changed {
            lemma_rounds_keep_links(g2, (rounds - 1) as nat);
            lemma_keeps_links_compose(g, g2, opt_rounds(g, rounds)->Some_0);
        }
    }
}

/// The optimisation pipeline keeps the start, the exit, the input and
/// output variables, the number of nodes, their ids and their edges, and
/// only simplifies blocks: a skip stays a skip, an assignment stays an
/// assignment to the same variable or becomes a skip, a condition stays a
/// condition.
pub proof fn lemma_optimize_keeps_links(g: CfgModel)
    requires
        optimize_spec(g) is Some,
    ensures
        keeps_links(g, optimize_spec(g)->Some_0),
{
    lemma_rounds_keep_links(g, 10);
    let h = opt_rounds(g, 10)->Some_0;
    lemma_passes_keep_links(h);
    lemma_keeps_links_compose(g, h, h.with_nodes(without_dead_stores(h)));
}

/// Runs the optimisation pipeline: at most ten rounds of constant
/// propagation and constant folding, stopping after a round that changes
/// nothing, then dead-store elimination. `None` when folding overflows
/// (where the pipeline panics).
pub fn try_optimize_cfg(cfg: &Cfg) -> (r: Option<Cfg>)
    requires
        cfg.wf(),
    ensures
        match r {
            Some(c) => {
                &&& optimize_spec(cfg@) == Some(c@)
                &&& keeps_links(cfg@, c@)
                &&& ends_only_at_exit(cfg@) ==> keeps_output(cfg@, c@)
            },
            None => optimize_spec(cfg@) is None,
        },
{
    let mut current = cfg.copy();
    let mut round: usize = 0;
    proof {
        lemma_keeps_runs_refl(cfg@);
    }
    while round < 10
        invariant_except_break
            round <= 10,
            current.wf(),
            opt_rounds(cfg@, 10) == opt_rounds(current@, (10 - round) as nat),
            keeps_runs(cfg@, current@),
            current@.output_var == cfg@.output_var,
            ends_only_at_exit(cfg@) ==> ends_only_at_exit(current@),
        ensures
            current.wf(),
            opt_rounds(cfg@, 10) == Some(current@),
            keeps_runs(cfg@, current@),
            current@.output_var == cfg@.output_var,
            ends_only_at_exit(cfg@) ==> ends_only_at_exit(current@),
        decreases 10 - round,
    {
        let mut changed = false;
        let ghost before = current@;
        let ghost left = (10 - round) as nat;
        assert(opt_rounds(before, left) == match opt_round(before) {
            Some((g2, c)) => if c { opt_rounds(g2, (left - 1) as nat) } else { Some(g2) },
            None => None,
        });
        proof {
            lemma_passes_keep_wf(current@);
        }
        let (next, did_change) = constant_propagation(&current);
        proof {
            lemma_keeps_runs_compose(cfg@, current@, next@);
        }
        current = next;
        changed = changed || did_change;
        let (next, did_change) = match try_constant_folding(&current) {
            Some(x) => x,
            None => {
                return None;
            },
        };
        proof {
            lemma_passes_keep_wf(current@);
            lemma_keeps_runs_compose(cfg@, current@, next@);
        }
        current = next;
        changed = changed || did_change;
        round = round + 1;
        if !changed {
            break;
        }
    }
    proof {
        lemma_passes_keep_wf(current@);
    }
    let (result, _) = dead_store_elimination(&current);
    proof {
        lemma_optimize_keeps_links(cfg@);
        if ends_only_at_exit(cfg@) {
            lemma_keeps_runs_then_output(cfg@, current@, result@);
        }
    }
    Some(result)
}

/// Runs the optimisation pipeline (see `try_optimize_cfg`); folding may not
/// overflow.
pub fn optimize_cfg(cfg: &Cfg) -> (r: Cfg)
    requires
        cfg.wf(),
        optimize_spec(cfg@) is Some,
    ensures
        optimize_spec(cfg@) == Some(r@),
        keeps_links(cfg@, r@),
        ends_only_at_exit(cfg@) ==> keeps_output(cfg@, r@),
{
    try_optimize_cfg(cfg).unwrap()
}

// ---------------------------------------------------------------------------
// Possibly undefined variables

/// The variables that an arithmetic expression reads, in order, once per
/// occurrence.
pub open spec fn expr_var_list(e: Expr) -> Seq<Seq<char>>
    decreases e,
{
    match e {
        Expr::Var(x) => seq![x@],
        Expr::Int(_) => seq![],
        Expr::Add(l, r) | Expr::Sub(l, r) | Expr::Mul(l, r) => expr_var_list(*l) + expr_var_list(*r),
    }
}

/// The variables that a boolean expression reads, in order, once per
/// occurrence.
pub open spec fn bool_var_list(b: BoolExpr) -> Seq<Seq<char>>
    decreases b,
{
    match b {
        BoolExpr::True | BoolExpr::False => seq![],
        BoolExpr::Less(l, r) => expr_var_list(*l) + expr_var_list(*r),
        BoolExpr::And(l, r) => bool_var_list(*l) + bool_var_list(*r),
        BoolExpr::Not(inner) => bool_var_list(*inner),
    }
}

/// The variables that a block reads, in order, once per occurrence.
pub open spec fn block_var_list(b: Block) -> Seq<Seq<char>> {
    match b {
        Block::Skip => seq![],
        Block::Assignment(_, e) => expr_var_list(e),
        Block::Condition(c) => bool_var_list(c),
    }
}

/// The variables surely defined on entry to each node (the greatest
/// solution of the defined-variables equations within their universe).
pub open spec fn defined_at_entry(g: CfgModel) -> Seq<Set<Seq<char>>> {
    defined_solution(g).0
}

/// The reads among `vars` of variables not in `defined`, each with `id`.
pub open spec fn missing_reads(vars: Seq<Seq<char>>, defined: Set<Seq<char>>, id: usize) -> Seq<(Seq<char>, usize)>
    decreases vars.len(),
{
    if vars.len() == 0 {
        seq![]
    } else {
        let rest = missing_reads(vars.drop_last(), defined, id);
        if defined.contains(vars.last()) {
            rest
        } else {
            rest.push((vars.last(), id))
        }
    }
}

/// The reads of possibly undefined variables in the first `m` nodes, in
/// order, with the id of the node that reads.
pub open spec fn undefined_reads(g: CfgModel, m: int) -> Seq<(Seq<char>, usize)>
    decreases m,
{
    if m <= 0 {
        seq![]
    } else {
        undefined_reads(g, m - 1) + missing_reads(
            block_var_list(g.nodes[m - 1].block),
            defined_at_entry(g)[m - 1],
            g.nodes[m - 1].id,
        )
    }
}

/// A list of (variable, node) pairs with the variable taken by view.
pub open spec fn reads_view(v: Seq<(String, usize)>) -> Seq<(Seq<char>, usize)> {
    v.map_values(|p: (String, usize)| (p.0@, p.1))
}

fn vars_in_expr(expr: &Expr) -> (r: Vec<String>)
    ensures
        r@.map_values(|x: String| x@) == expr_var_list(*expr),
    decreases expr,
{
    match expr {
        Expr::Var(name) => {
            let mut v = Vec::new();
            v.push(name.clone());
            assert(v@.map_values(|x: String| x@) =~= seq![name@]);
            v
        },
        Expr::Int(_) => {
            let v: Vec<String> = Vec::new();
            assert(v@.map_values(|x: String| x@) =~= Seq::<Seq<char>>::empty());
            v
        },
        Expr::Add(left, right) | Expr::Sub(left, right) | Expr::Mul(left, right) => {
            let mut vars = vars_in_expr(left);
            let mut more = vars_in_expr(right);
            let ghost a = vars@;
            let ghost b = more@;
            vars.append(&mut more);
            assert(vars@.map_values(|x: String| x@) =~= a.map_values(|x: String| x@) + b.map_values(|x: String| x@));
            vars
        },
    }
}

fn vars_in_bool(expr: &BoolExpr) -> (r: Vec<String>)
    ensures
        r@.map_values(|x: String| x@) == bool_var_list(*expr),
    decreases expr,
{
    match expr {
        BoolExpr::True | BoolExpr::False => {
            let v: Vec<String> = Vec::new();
            assert(v@.map_values(|x: String| x@) =~= Seq::<Seq<char>>::empty());
            v
        },
        BoolExpr::Less(left, right) => {
            let mut vars = vars_in_expr(left);
            let mut more = vars_in_expr(right);
            let ghost a = vars@;
            let ghost b = more@;
            vars.append(&mut more);
            assert(vars@.map_values(|x: String| x@) =~= a.map_values(|x: String| x@) + b.map_values(|x: String| x@));
            vars
        },
        BoolExpr::And(left, right) => {
            let mut vars = vars_in_bool(left);
            let mut more = vars_in_bool(right);
            let ghost a = vars@;
            let ghost b = more@;
            vars.append(&mut more);
            assert(vars@.map_values(|x: String| x@) =~= a.map_values(|x: String| x@) + b.map_values(|x: String| x@));
            vars
        },
        BoolExpr::Not(inner) => vars_in_bool(inner),
    }
}

fn used_variables(block: &Block) -> (r: Vec<String>)
    ensures
        r@.map_values(|x: String| x@) == block_var_list(*block),
{
    match block {
        Block::Skip => {
            let v: Vec<String> = Vec::new();
            assert(v@.map_values(|x: String| x@) =~= Seq::<Seq<char>>::empty());
            v
        },
        Block::Assignment(_, expr) => vars_in_expr(expr),
        Block::Condition(cond) => vars_in_bool(cond),
    }
}

/// Every read of a variable that may be undefined there: a variable read by
/// a node but not surely defined on entry to it. Gives, in node order and
/// then in reading order, each such variable with the id of its node.
pub fn undefined_variable_uses(cfg: &Cfg) -> (r: Vec<(String, usize)>)
    requires
        cfg.wf(),
    ensures
        reads_view(r@) == undefined_reads(cfg@, cfg@.nodes.len() as int),
{
    let analysed = defined_variables(cfg);
    proof {
        lemma_greatest_solution_unique(
            defined_rule_in(cfg@),
            defined_rule_out(cfg@),
            cfg@.nodes.len(),
            defined_universe(cfg@),
            variable_ins(analysed),
            variable_outs(analysed),
        );
    }
    let mut found: Vec<(String, usize)> = Vec::new();
    let n = analysed.nodes.len();
    let mut k: usize = 0;
    assert(reads_view(found@) =~= undefined_reads(cfg@, 0));
    while k < n
        invariant
            n == cfg.nodes@.len(),
            same_shape_variable(analysed, cfg@),
            variable_ins(analysed) == defined_at_entry(cfg@),
            k <= n,
            reads_view(found@) == undefined_reads(cfg@, k as int),
        decreases n - k,
    {
        let node = &analysed.nodes[k];
        assert(node.annotation.in_set@ == defined_at_entry(cfg@)[k as int]);
        let used = used_variables(&node.block);
        let ghost names = used@.map_values(|x: String| x@);
        let ghost start = reads_view(found@);
        let mut i: usize = 0;
        while i < used.len()
            invariant
                names == used@.map_values(|x: String| x@),
                i <= used@.len(),
                reads_view(found@) == start + missing_reads(
                    names.subrange(0, i as int),
                    node.annotation.in_set@,
                    node.id,
                ),
            decreases used@.len() - i,
        {
            let ghost before = found@;
            assert(names.subrange(0, i + 1).drop_last() =~= names.subrange(0, i as int));
            if !node.annotation.in_set.contains(&used[i]) {
                found.push((used[i].clone(), node.id));
                assert(reads_view(found@) =~= reads_view(before).push((used@[i as int]@, node.id)));
            }
            i = i + 1;
        }
        assert(names.subrange(0, i as int) =~= names);
        k = k + 1;
    }
    found
}

} // verus!
