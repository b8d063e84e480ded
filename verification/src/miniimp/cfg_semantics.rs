//! What running a control-flow graph does, and how that relates to running
//! the program the graph was built from.
//!
//! A run starts at a node with a memory. Each node runs its block (a skip,
//! an assignment, or the test of a condition) and then goes where its edge
//! says: a condition with two branches takes the branch its value picks, any
//! other node follows its edge (the first target of a two-way edge), and the
//! exit ends the run with the memory it has. This is how the LLVM code that
//! the library emits runs each block.
use vstd::prelude::*;
use crate::common::error::ErrorModel;
use crate::miniimp::ast::{BoolExpr, Cmd, Expr, Program};
use crate::miniimp::cfg::{
    Block, Edge, Node, nodes_wf, build_spec, cmd_nodes, program_cfg, lemma_build_shape, lemma_build_frame,
    push_node, edge_in, lemma_program_cfg_wf,
};
use crate::miniimp::eval::{expr_spec, bool_spec, exec_spec, program_spec, lemma_exec_fuel_monotone};
use crate::miniimp::cfg::{CfgModel, ends_only_at_exit};
use crate::miniimp::dataflow::{
    assigned, is_pred, edge_has, reach_in, reach_out, reach_rule_in, reach_rule_out, live_rule_out, live_rule_in,
    live_out, live_in, expr_vars, bool_vars, lemma_reach_rules, lemma_live_rules, reach_universe,
    live_universe, defined_rule_in, defined_rule_out, defined_in, defined_out, defined_universe,
    defined_solution, lemma_defined_solution,
};
use crate::miniimp::fixpoint::{is_solution, least_solution, lemma_least_solution_exists};
use crate::miniimp::optimizations::{
    folds_ok, folded_nodes, folded_node, fold_block_spec, lemma_fold_expr_sound, lemma_fold_bool_sound,
    reaching_at, defs_of, constant_of, propagate_expr_spec, propagate_bool_spec, propagate_block_spec,
    propagated_nodes, live_at_exit, is_dead_store, without_dead_stores, optimize_spec, lemma_optimize_keeps_output,
    defined_at_entry, undefined_reads, missing_reads, expr_var_list, bool_var_list, block_var_list,
};
use crate::miniimp::sets::DefinitionPlace;

verus! {

/// What a run gives: the memory at the exit, an error, or `None` when the
/// fuel runs out or an operation overflows.
pub type RunOutcome = Option<Result<Map<Seq<char>, i64>, ErrorModel>>;

/// Going along an edge with memory `m` and `fuel` steps left.
pub open spec fn follow(ns: Seq<Node>, fuel: nat, e: Edge, m: Map<Seq<char>, i64>) -> RunOutcome
    decreases fuel, 1nat,
{
    match e {
        Edge::End => Some(Ok(m)),
        Edge::Next(j) => run_from(ns, fuel, j as int, m),
        Edge::If { true_branch, false_branch: _ } => run_from(ns, fuel, true_branch as int, m),
    }
}

/// Running the graph from node `k` with memory `m`, for at most `fuel`
/// nodes.
pub open spec fn run_from(ns: Seq<Node>, fuel: nat, k: int, m: Map<Seq<char>, i64>) -> RunOutcome
    decreases fuel, 0nat,
{
    if fuel == 0 || k < 0 || k >= ns.len() {
        None
    } else {
        let f = (fuel - 1) as nat;
        match ns[k].block {
            Block::Skip => follow(ns, f, ns[k].edge, m),
            Block::Assignment(x, e) => match expr_spec(m, e) {
                Some(Ok(v)) => follow(ns, f, ns[k].edge, m.insert(x@, v)),
                Some(Err(err)) => Some(Err(err)),
                None => None,
            },
            Block::Condition(b) => match bool_spec(m, b) {
                Some(Ok(v)) => match ns[k].edge {
                    Edge::If { true_branch, false_branch } => run_from(
                        ns,
                        f,
                        if v { true_branch as int } else { false_branch as int },
                        m,
                    ),
                    _ => follow(ns, f, ns[k].edge, m),
                },
                Some(Err(err)) => Some(Err(err)),
                None => None,
            },
        }
    }
}

/// The memory at the start of a run: the input variable holds the input.
pub open spec fn input_memory(x: Seq<char>, v: i64) -> Map<Seq<char>, i64> {
    Map::empty().insert(x, v)
}

/// The output of the graph of a program, run from its start node on an
/// input, for at most `fuel` nodes.
pub open spec fn graph_program_spec(fuel: nat, p: Program, input: i64) -> Option<Result<i64, ErrorModel>> {
    let g = program_cfg(p);
    match run_from(g.nodes, fuel, g.start as int, input_memory(p.input_var@, input)) {
        Some(Ok(m)) => if m.dom().contains(p.output_var@) {
            Some(Ok(m[p.output_var@]))
        } else {
            Some(Err(ErrorModel::OutputVariableUndefined(p.output_var@)))
        },
        Some(Err(e)) => Some(Err(e)),
        None => None,
    }
}

/// What a run goes on with after the exit node `e` of a command gave `r`.
pub open spec fn after(ns: Seq<Node>, fuel: nat, e: int, r: RunOutcome) -> RunOutcome {
    match r {
        Some(Ok(m)) => follow(ns, fuel, ns[e].edge, m),
        Some(Err(err)) => Some(Err(err)),
        None => None,
    }
}

/// `g` holds the nodes that building `c` after `ns` adds, with their edges,
/// but for the edge of the command's exit node.
pub open spec fn holds_build(g: Seq<Node>, ns: Seq<Node>, c: Cmd) -> bool {
    let (n, s, e) = build_spec(ns, c);
    &&& n.len() <= g.len()
    &&& forall|i: int|
        ns.len() <= i < n.len() ==> (#[trigger] g[i]).block == n[i].block && (i != e ==> g[i].edge == n[i].edge)
}

pub proof fn lemma_push_wf(ns: Seq<Node>, b: Block)
    requires
        nodes_wf(ns),
        ns.len() < usize::MAX,
    ensures
        nodes_wf(push_node(ns, b)),
{
    let n0 = push_node(ns, b);
    assert forall|i: int| 0 <= i < n0.len() implies (#[trigger] n0[i]).id == i && edge_in(n0[i].edge, n0.len() as int) by {
        if i < ns.len() {
            assert(ns[i].id == i && edge_in(ns[i].edge, ns.len() as int));
        }
    }
}

/// The nodes of each part of a command's graph are held too, and the
/// edges that join the parts are in place.
pub proof fn lemma_holds_build_parts(g: Seq<Node>, ns: Seq<Node>, c: Cmd)
    requires
        nodes_wf(ns),
        ns.len() + cmd_nodes(c) <= usize::MAX,
        holds_build(g, ns, c),
    ensures
        match c {
            Cmd::Sequence(a, b) => {
                let (n1, s1, e1) = build_spec(ns, *a);
                let (n2, s2, e2) = build_spec(n1, *b);
                &&& nodes_wf(n1)
                &&& n1.len() + cmd_nodes(*b) <= usize::MAX
                &&& holds_build(g, ns, *a)
                &&& holds_build(g, n1, *b)
                &&& g[e1].edge == Edge::Next(s2 as usize)
            },
            Cmd::If(cond, a, b) => {
                let cid = ns.len() as int;
                let n0 = push_node(ns, Block::Condition(cond));
                let (n1, ts, te) = build_spec(n0, *a);
                let (n2, es, ee) = build_spec(n1, *b);
                let after_id = n2.len() as int;
                &&& nodes_wf(n0)
                &&& nodes_wf(n1)
                &&& n0.len() + cmd_nodes(*a) <= usize::MAX
                &&& n1.len() + cmd_nodes(*b) <= usize::MAX
                &&& holds_build(g, n0, *a)
                &&& holds_build(g, n1, *b)
                &&& g[cid].block == Block::Condition(cond)
                &&& g[cid].edge == Edge::If { true_branch: ts as usize, false_branch: es as usize }
                &&& g[te].edge == Edge::Next(after_id as usize)
                &&& g[ee].edge == Edge::Next(after_id as usize)
                &&& g[after_id].block == Block::Skip
                &&& build_spec(ns, c).2 == after_id
            },
            Cmd::While(cond, body) => {
                let cid = ns.len() as int;
                let n0 = push_node(ns, Block::Condition(cond));
                let (n1, bs, be) = build_spec(n0, *body);
                let after_id = n1.len() as int;
                &&& nodes_wf(n0)
                &&& n0.len() + cmd_nodes(*body) <= usize::MAX
                &&& holds_build(g, n0, *body)
                &&& g[cid].block == Block::Condition(cond)
                &&& g[cid].edge == Edge::If { true_branch: bs as usize, false_branch: after_id as usize }
                &&& g[be].edge == Edge::Next(cid as usize)
                &&& g[after_id].block == Block::Skip
                &&& build_spec(ns, c).2 == after_id
            },
            _ => true,
        },
{
    lemma_build_shape(ns, c);
    lemma_build_frame(ns, c);
    let (n, s, e) = build_spec(ns, c);
    match c {
        Cmd::Sequence(a, b) => {
            lemma_build_shape(ns, *a);
            lemma_build_frame(ns, *a);
            let (n1, s1, e1) = build_spec(ns, *a);
            lemma_build_shape(n1, *b);
            lemma_build_frame(n1, *b);
            let (n2, s2, e2) = build_spec(n1, *b);
            assert(holds_build(g, ns, *a)) by {
                assert forall|i: int| ns.len() <= i < n1.len() implies (#[trigger] g[i]).block == n1[i].block
                    && (i != e1 ==> g[i].edge == n1[i].edge) by {
                    assert(n2[i] == n1[i]);
                    assert(n[i].block == n2[i].block);
                    assert(g[i].block == n[i].block);
                }
            }
            assert(holds_build(g, n1, *b)) by {
                assert forall|i: int| n1.len() <= i < n2.len() implies (#[trigger] g[i]).block == n2[i].block
                    && (i != e2 ==> g[i].edge == n2[i].edge) by {
                    assert(g[i].block == n[i].block);
                }
            }
            assert(g[e1].edge == Edge::Next(s2 as usize)) by {
                assert(g[e1].block == n[e1].block);
            }
        },
        Cmd::If(cond, a, b) => {
            let cid = ns.len() as int;
            let n0 = push_node(ns, Block::Condition(cond));
            lemma_push_wf(ns, Block::Condition(cond));
            lemma_build_shape(n0, *a);
            lemma_build_frame(n0, *a);
            let (n1, ts, te) = build_spec(n0, *a);
            lemma_build_shape(n1, *b);
            lemma_build_frame(n1, *b);
            let (n2, es, ee) = build_spec(n1, *b);
            let after_id = n2.len() as int;
            assert(g[cid].block == n[cid].block);
            assert(g[cid].edge == n[cid].edge);
            assert(n1[cid] == n0[cid]);
            assert(n2[cid] == n1[cid]);
            assert(g[after_id].block == n[after_id].block);
            assert(holds_build(g, n0, *a)) by {
                assert forall|i: int| n0.len() <= i < n1.len() implies (#[trigger] g[i]).block == n1[i].block
                    && (i != te ==> g[i].edge == n1[i].edge) by {
                    assert(n2[i] == n1[i]);
                    assert(g[i].block == n[i].block);
                }
            }
            assert(holds_build(g, n1, *b)) by {
                assert forall|i: int| n1.len() <= i < n2.len() implies (#[trigger] g[i]).block == n2[i].block
                    && (i != ee ==> g[i].edge == n2[i].edge) by {
                    assert(g[i].block == n[i].block);
                }
            }
            assert(g[te].edge == Edge::Next(after_id as usize)) by {
                assert(g[te].block == n[te].block);
            }
            assert(g[ee].edge == Edge::Next(after_id as usize)) by {
                assert(g[ee].block == n[ee].block);
            }
        },
        Cmd::While(cond, body) => {
            let cid = ns.len() as int;
            let n0 = push_node(ns, Block::Condition(cond));
            lemma_push_wf(ns, Block::Condition(cond));
            lemma_build_shape(n0, *body);
            lemma_build_frame(n0, *body);
            let (n1, bs, be) = build_spec(n0, *body);
            let after_id = n1.len() as int;
            assert(g[cid].block == n[cid].block);
            assert(g[cid].edge == n[cid].edge);
            assert(n1[cid] == n0[cid]);
            assert(g[after_id].block == n[after_id].block);
            assert(holds_build(g, n0, *body)) by {
                assert forall|i: int| n0.len() <= i < n1.len() implies (#[trigger] g[i]).block == n1[i].block
                    && (i != be ==> g[i].edge == n1[i].edge) by {
                    assert(g[i].block == n[i].block);
                }
            }
            assert(g[be].edge == Edge::Next(cid as usize)) by {
                assert(g[be].block == n[be].block);
            }
        },
        _ => {},
    }
}

/// Running the nodes of a command's graph does what running the command
/// does: from the command's first node, after `d` more steps, the run is
/// where it goes on from the command's exit node with the command's result.
proof fn lemma_build_runs(g: Seq<Node>, ns: Seq<Node>, c: Cmd, f: nat, m: Map<Seq<char>, i64>) -> (d: nat)
    requires
        nodes_wf(ns),
        ns.len() + cmd_nodes(c) <= usize::MAX,
        holds_build(g, ns, c),
        exec_spec(f, m, c) is Some,
    ensures
        forall|k: nat|
            run_from(g, k + d, build_spec(ns, c).1, m) == #[trigger] after(g, k, build_spec(ns, c).2, exec_spec(f, m, c)),
    decreases f,
{
    lemma_build_shape(ns, c);
    lemma_build_frame(ns, c);
    let (n, s, e) = build_spec(ns, c);
    let f1 = (f - 1) as nat;
    match c {
        Cmd::Skip => {
            assert forall|k: nat| run_from(g, k + 1, s, m) == #[trigger] after(g, k, e, exec_spec(f, m, c)) by {}
            1
        },
        Cmd::Assign(x, ex) => {
            assert forall|k: nat| run_from(g, k + 1, s, m) == #[trigger] after(g, k, e, exec_spec(f, m, c)) by {}
            1
        },
        Cmd::Sequence(a, b) => {
            lemma_build_shape(ns, *a);
            lemma_build_frame(ns, *a);
            let (n1, s1, e1) = build_spec(ns, *a);
            lemma_build_shape(n1, *b);
            lemma_build_frame(n1, *b);
            let (n2, s2, e2) = build_spec(n1, *b);
            assert(holds_build(g, ns, *a)) by {
                assert forall|i: int| ns.len() <= i < n1.len() implies (#[trigger] g[i]).block == n1[i].block
                    && (i != e1 ==> g[i].edge == n1[i].edge) by {
                    assert(n2[i] == n1[i]);
                    assert(n[i].block == n2[i].block);
                    assert(g[i].block == n[i].block);
                }
            }
            assert(holds_build(g, n1, *b)) by {
                assert forall|i: int| n1.len() <= i < n2.len() implies (#[trigger] g[i]).block == n2[i].block
                    && (i != e2 ==> g[i].edge == n2[i].edge) by {
                    assert(g[i].block == n[i].block);
                }
            }
            assert(g[e1].edge == Edge::Next(s2 as usize)) by {
                assert(g[e1].block == n[e1].block);
            }
            let d1 = lemma_build_runs(g, ns, *a, f1, m);
            match exec_spec(f1, m, *a) {
                Some(Ok(m2)) => {
                    let d2 = lemma_build_runs(g, n1, *b, f1, m2);
                    assert forall|k: nat| run_from(g, k + (d1 + d2), s, m) == #[trigger] after(g, k, e, exec_spec(f, m, c)) by {
                        assert(run_from(g, (k + d2) + d1, s1, m) == after(g, k + d2, e1, exec_spec(f1, m, *a)));
                        assert(run_from(g, k + d2, s2, m2) == after(g, k, e2, exec_spec(f1, m2, *b)));
                        assert(k + (d1 + d2) == (k + d2) + d1);
                    }
                    d1 + d2
                },
                _ => {
                    assert forall|k: nat| run_from(g, k + d1, s, m) == #[trigger] after(g, k, e, exec_spec(f, m, c)) by {
                        assert(run_from(g, k + d1, s1, m) == after(g, k, e1, exec_spec(f1, m, *a)));
                    }
                    d1
                },
            }
        },
        Cmd::If(cond, a, b) => {
            let cid = ns.len() as int;
            let n0 = push_node(ns, Block::Condition(cond));
            lemma_push_wf(ns, Block::Condition(cond));
            lemma_build_shape(n0, *a);
            lemma_build_frame(n0, *a);
            let (n1, ts, te) = build_spec(n0, *a);
            lemma_build_shape(n1, *b);
            lemma_build_frame(n1, *b);
            let (n2, es, ee) = build_spec(n1, *b);
            let after_id = n2.len() as int;
            assert(g[cid].block == n[cid].block);
            assert(g[cid].edge == n[cid].edge);
            assert(n1[cid] == n0[cid]);
            assert(n2[cid] == n1[cid]);
            assert(g[cid].block == Block::Condition(cond));
            assert(g[cid].edge == Edge::If { true_branch: ts as usize, false_branch: es as usize });
            assert(g[after_id].block == Block::Skip);
            assert(holds_build(g, n0, *a)) by {
                assert forall|i: int| n0.len() <= i < n1.len() implies (#[trigger] g[i]).block == n1[i].block
                    && (i != te ==> g[i].edge == n1[i].edge) by {
                    assert(n2[i] == n1[i]);
                    assert(g[i].block == n[i].block);
                }
            }
            assert(holds_build(g, n1, *b)) by {
                assert forall|i: int| n1.len() <= i < n2.len() implies (#[trigger] g[i]).block == n2[i].block
                    && (i != ee ==> g[i].edge == n2[i].edge) by {
                    assert(g[i].block == n[i].block);
                }
            }
            assert(g[te].edge == Edge::Next(after_id as usize)) by {
                assert(g[te].block == n[te].block);
            }
            assert(g[ee].edge == Edge::Next(after_id as usize)) by {
                assert(g[ee].block == n[ee].block);
            }
            match bool_spec(m, cond) {
                Some(Ok(v)) => {
                    let (sub, sub_s, sub_e, sub_ns) = if v { (*a, ts, te, n0) } else { (*b, es, ee, n1) };
                    let db = lemma_build_runs(g, sub_ns, sub, f1, m);
                    assert(build_spec(sub_ns, sub) == (if v { n1 } else { n2 }, sub_s, sub_e));
                    assert forall|k: nat| run_from(g, k + (db + 2), s, m) == #[trigger] after(g, k, e, exec_spec(f, m, c)) by {
                        assert(run_from(g, (k + 1) + db, sub_s, m) == after(g, k + 1, sub_e, exec_spec(f1, m, sub)));
                        assert(k + (db + 2) == ((k + 1) + db) + 1);
                        if let Some(Ok(m2)) = exec_spec(f1, m, sub) {
                            assert(run_from(g, k + 1, after_id, m2) == follow(g, k, g[after_id].edge, m2));
                        }
                    }
                    db + 2
                },
                _ => {
                    assert forall|k: nat| run_from(g, k + 1, s, m) == #[trigger] after(g, k, e, exec_spec(f, m, c)) by {}
                    1
                },
            }
        },
        Cmd::While(cond, body) => {
            let cid = ns.len() as int;
            let n0 = push_node(ns, Block::Condition(cond));
            lemma_push_wf(ns, Block::Condition(cond));
            lemma_build_shape(n0, *body);
            lemma_build_frame(n0, *body);
            let (n1, bs, be) = build_spec(n0, *body);
            let after_id = n1.len() as int;
            assert(g[cid].block == n[cid].block);
            assert(g[cid].edge == n[cid].edge);
            assert(n1[cid] == n0[cid]);
            assert(g[cid].block == Block::Condition(cond));
            assert(g[cid].edge == Edge::If { true_branch: bs as usize, false_branch: after_id as usize });
            assert(g[after_id].block == Block::Skip);
            assert(holds_build(g, n0, *body)) by {
                assert forall|i: int| n0.len() <= i < n1.len() implies (#[trigger] g[i]).block == n1[i].block
                    && (i != be ==> g[i].edge == n1[i].edge) by {
                    assert(g[i].block == n[i].block);
                }
            }
            assert(g[be].edge == Edge::Next(cid as usize)) by {
                assert(g[be].block == n[be].block);
            }
            match bool_spec(m, cond) {
                Some(Ok(true)) => {
                    let db = lemma_build_runs(g, n0, *body, f1, m);
                    match exec_spec(f1, m, *body) {
                        Some(Ok(m2)) => {
                            let dw = lemma_build_runs(g, ns, c, f1, m2);
                            assert forall|k: nat| run_from(g, k + (dw + db + 1), s, m) == #[trigger] after(g, k, e, exec_spec(f, m, c)) by {
                                assert(run_from(g, (k + dw) + db, bs, m) == after(g, k + dw, be, exec_spec(f1, m, *body)));
                                assert(run_from(g, k + dw, cid, m2) == after(g, k, e, exec_spec(f1, m2, c)));
                                assert(k + (dw + db + 1) == ((k + dw) + db) + 1);
                            }
                            dw + db + 1
                        },
                        _ => {
                            assert forall|k: nat| run_from(g, k + (db + 1), s, m) == #[trigger] after(g, k, e, exec_spec(f, m, c)) by {
                                assert(run_from(g, k + db, bs, m) == after(g, k, be, exec_spec(f1, m, *body)));
                            }
                            db + 1
                        },
                    }
                },
                Some(Ok(false)) => {
                    assert forall|k: nat| run_from(g, k + 2, s, m) == #[trigger] after(g, k, e, exec_spec(f, m, c)) by {
                        assert(run_from(g, k + 1, after_id, m) == follow(g, k, g[after_id].edge, m));
                    }
                    2
                },
                _ => {
                    assert forall|k: nat| run_from(g, k + 1, s, m) == #[trigger] after(g, k, e, exec_spec(f, m, c)) by {}
                    1
                },
            }
        },
    }
}

/// The control-flow graph of a program runs like the program's body from
/// any memory: whatever running the body gives (a final memory or an
/// error), running the graph from its start node gives too, with enough
/// fuel.
pub proof fn lemma_graph_runs_like_body(p: Program, fuel: nat, m: Map<Seq<char>, i64>) -> (d: nat)
    requires
        cmd_nodes(p.body) <= usize::MAX,
        exec_spec(fuel, m, p.body) is Some,
    ensures
        run_from(program_cfg(p).nodes, d, program_cfg(p).start as int, m) == exec_spec(fuel, m, p.body),
{
    let empty = Seq::<Node>::empty();
    lemma_build_shape(empty, p.body);
    lemma_build_frame(empty, p.body);
    let (n, s, e) = build_spec(empty, p.body);
    assert(holds_build(n, empty, p.body));
    let d = lemma_build_runs(n, empty, p.body, fuel, m);
    assert(run_from(n, 0 + d, s, m) == after(n, 0, e, exec_spec(fuel, m, p.body)));
    assert(0 + d == d);
    d
}

/// More fuel does not change what a run already gives with less.
pub proof fn lemma_run_fuel_monotone(ns: Seq<Node>, f1: nat, f2: nat, k: int, m: Map<Seq<char>, i64>)
    requires
        f1 <= f2,
        run_from(ns, f1, k, m) is Some,
    ensures
        run_from(ns, f2, k, m) == run_from(ns, f1, k, m),
    decreases f1, 0nat,
{
    let g1 = (f1 - 1) as nat;
    let g2 = (f2 - 1) as nat;
    let node = ns[k];
    match node.block {
        Block::Skip => {
            lemma_follow_fuel_monotone(ns, g1, g2, node.edge, m);
        },
        Block::Assignment(x, e) => {
            if let Some(Ok(v)) = expr_spec(m, e) {
                lemma_follow_fuel_monotone(ns, g1, g2, node.edge, m.insert(x@, v));
            }
        },
        Block::Condition(b) => {
            if let Some(Ok(v)) = bool_spec(m, b) {
                match node.edge {
                    Edge::If { true_branch, false_branch } => {
                        lemma_run_fuel_monotone(ns, g1, g2, if v { true_branch as int } else { false_branch as int }, m);
                    },
                    _ => {
                        lemma_follow_fuel_monotone(ns, g1, g2, node.edge, m);
                    },
                }
            }
        },
    }
}

/// More fuel does not change where following an edge ends, once it ends.
proof fn lemma_follow_fuel_monotone(ns: Seq<Node>, f1: nat, f2: nat, e: Edge, m: Map<Seq<char>, i64>)
    requires
        f1 <= f2,
        follow(ns, f1, e, m) is Some,
    ensures
        follow(ns, f2, e, m) == follow(ns, f1, e, m),
    decreases f1, 1nat,
{
    match e {
        Edge::End => {},
        Edge::Next(j) => {
            lemma_run_fuel_monotone(ns, f1, f2, j as int, m);
        },
        Edge::If { true_branch, false_branch: _ } => {
            lemma_run_fuel_monotone(ns, f1, f2, true_branch as int, m);
        },
    }
}

/// A run of the nodes of a command's graph that gives a result from the
/// command's first node comes from a run of the command that gives one.
proof fn lemma_build_runs_back(g: Seq<Node>, ns: Seq<Node>, c: Cmd, fuel: nat, m: Map<Seq<char>, i64>) -> (f: nat)
    requires
        nodes_wf(ns),
        ns.len() + cmd_nodes(c) <= usize::MAX,
        holds_build(g, ns, c),
        run_from(g, fuel, build_spec(ns, c).1, m) is Some,
    ensures
        exec_spec(f, m, c) is Some,
    decreases fuel, c,
{
    lemma_build_shape(ns, c);
    lemma_holds_build_parts(g, ns, c);
    let (n, s, e) = build_spec(ns, c);
    let f1 = (fuel - 1) as nat;
    match c {
        Cmd::Skip => 1,
        Cmd::Assign(x, ex) => {
            assert(g[s].block == Block::Assignment(x, ex));
            1
        },
        Cmd::Sequence(a, b) => {
            let (n1, s1, e1) = build_spec(ns, *a);
            lemma_build_shape(ns, *a);
            lemma_build_shape(n1, *b);
            let fa = lemma_build_runs_back(g, ns, *a, fuel, m);
            match exec_spec(fa, m, *a) {
                Some(Ok(m1)) => {
                    let d1 = lemma_build_runs(g, ns, *a, fa, m);
                    lemma_run_fuel_monotone(g, fuel, fuel + d1, s1, m);
                    assert(run_from(g, fuel + d1, s1, m) == after(g, fuel, e1, exec_spec(fa, m, *a)));
                    assert(run_from(g, fuel, build_spec(n1, *b).1, m1) is Some);
                    let fb = lemma_build_runs_back(g, n1, *b, fuel, m1);
                    let top = fa + fb;
                    lemma_exec_fuel_monotone(fa, top, m, *a);
                    lemma_exec_fuel_monotone(fb, top, m1, *b);
                    top + 1
                },
                _ => fa + 1,
            }
        },
        Cmd::If(cond, a, b) => {
            let n0 = push_node(ns, Block::Condition(cond));
            let n1 = build_spec(n0, *a).0;
            lemma_build_shape(n0, *a);
            lemma_build_shape(n1, *b);
            match bool_spec(m, cond) {
                Some(Ok(v)) => if v {
                    lemma_build_runs_back(g, n0, *a, f1, m) + 1
                } else {
                    lemma_build_runs_back(g, n1, *b, f1, m) + 1
                },
                _ => 1,
            }
        },
        Cmd::While(cond, body) => {
            let cid = ns.len() as int;
            let n0 = push_node(ns, Block::Condition(cond));
            let (n1, bs, be) = build_spec(n0, *body);
            lemma_build_shape(n0, *body);
            match bool_spec(m, cond) {
                Some(Ok(true)) => {
                    let fb = lemma_build_runs_back(g, n0, *body, f1, m);
                    match exec_spec(fb, m, *body) {
                        Some(Ok(m1)) => {
                            let db = lemma_build_runs(g, n0, *body, fb, m);
                            lemma_run_fuel_monotone(g, f1, f1 + db, bs, m);
                            assert(run_from(g, f1 + db, bs, m) == after(g, f1, be, exec_spec(fb, m, *body)));
                            assert(run_from(g, f1, cid, m1) is Some);
                            let fw = lemma_build_runs_back(g, ns, c, f1, m1);
                            let top = fb + fw;
                            lemma_exec_fuel_monotone(fb, top, m, *body);
                            lemma_exec_fuel_monotone(fw, top, m1, c);
                            top + 1
                        },
                        _ => fb + 1,
                    }
                },
                _ => 1,
            }
        },
    }
}

/// The control-flow graph of a program runs like the program's body from
/// any memory, in both directions: a run of the graph from its start node
/// that gives a result (a final memory or an error) comes from a run of
/// the body that gives the same. With `lemma_graph_runs_like_body`, the
/// graph and the body give the same memory, or the same error, or both
/// give none.
pub proof fn lemma_body_runs_like_graph(p: Program, fuel: nat, m: Map<Seq<char>, i64>) -> (f: nat)
    requires
        cmd_nodes(p.body) <= usize::MAX,
        run_from(program_cfg(p).nodes, fuel, program_cfg(p).start as int, m) is Some,
    ensures
        exec_spec(f, m, p.body) == run_from(program_cfg(p).nodes, fuel, program_cfg(p).start as int, m),
{
    let empty = Seq::<Node>::empty();
    lemma_build_shape(empty, p.body);
    lemma_build_frame(empty, p.body);
    let (n, s, e) = build_spec(empty, p.body);
    assert(holds_build(n, empty, p.body));
    let f = lemma_build_runs_back(n, empty, p.body, fuel, m);
    let d = lemma_build_runs(n, empty, p.body, f, m);
    lemma_run_fuel_monotone(n, fuel, fuel + d, s, m);
    assert(run_from(n, fuel + d, s, m) == after(n, fuel, e, exec_spec(f, m, p.body)));
    f
}

/// A run of a program's graph on an input that gives an output or an
/// error comes from a run of the program that gives the same.
pub proof fn lemma_program_runs_like_graph(p: Program, fuel: nat, input: i64) -> (f: nat)
    requires
        cmd_nodes(p.body) <= usize::MAX,
        graph_program_spec(fuel, p, input) is Some,
    ensures
        program_spec(f, p, input) == graph_program_spec(fuel, p, input),
{
    lemma_body_runs_like_graph(p, fuel, input_memory(p.input_var@, input))
}

/// The control-flow graph of a program computes what the program computes:
/// whatever running the program gives (an output or an error), running its
/// graph from the start node gives too, with enough fuel.
pub proof fn lemma_graph_runs_like_program(p: Program, fuel: nat, input: i64) -> (d: nat)
    requires
        cmd_nodes(p.body) <= usize::MAX,
        program_spec(fuel, p, input) is Some,
    ensures
        graph_program_spec(d, p, input) == program_spec(fuel, p, input),
{
    let empty = Seq::<Node>::empty();
    let m0 = input_memory(p.input_var@, input);
    lemma_build_shape(empty, p.body);
    lemma_build_frame(empty, p.body);
    let (n, s, e) = build_spec(empty, p.body);
    assert(holds_build(n, empty, p.body));
    let d = lemma_build_runs(n, empty, p.body, fuel, m0);
    assert(run_from(n, 0 + d, s, m0) == after(n, 0, e, exec_spec(fuel, m0, p.body)));
    assert(0 + d == d);
    d
}

/// Following an edge in the folded graph ends where it ends in the graph.
proof fn lemma_folding_keeps_follow(ns: Seq<Node>, fuel: nat, e: Edge, m: Map<Seq<char>, i64>, m2: Map<Seq<char>, i64>)
    requires
        folds_ok(ns),
        follow(ns, fuel, e, m) == Some(Ok::<Map<Seq<char>, i64>, ErrorModel>(m2)),
    ensures
        follow(folded_nodes(ns), fuel, e, m) == Some(Ok::<Map<Seq<char>, i64>, ErrorModel>(m2)),
    decreases fuel, 1nat,
{
    match e {
        Edge::End => {},
        Edge::Next(j) => lemma_folding_keeps_runs(ns, fuel, j as int, m, m2),
        Edge::If { true_branch, false_branch: _ } => lemma_folding_keeps_runs(ns, fuel, true_branch as int, m, m2),
    }
}

/// Constant folding keeps every run of the graph that reaches the exit:
/// the folded graph, run from the same node with the same memory, ends with
/// the same memory.
pub proof fn lemma_folding_keeps_runs(ns: Seq<Node>, fuel: nat, k: int, m: Map<Seq<char>, i64>, m2: Map<Seq<char>, i64>)
    requires
        folds_ok(ns),
        run_from(ns, fuel, k, m) == Some(Ok::<Map<Seq<char>, i64>, ErrorModel>(m2)),
    ensures
        run_from(folded_nodes(ns), fuel, k, m) == Some(Ok::<Map<Seq<char>, i64>, ErrorModel>(m2)),
    decreases fuel, 0nat,
{
    let fs = folded_nodes(ns);
    let f = (fuel - 1) as nat;
    assert(fs[k] == folded_node(ns[k]));
    assert(fold_block_spec(ns[k].block) is Some);
    match ns[k].block {
        Block::Skip => {
            lemma_folding_keeps_follow(ns, f, ns[k].edge, m, m2);
        },
        Block::Assignment(x, e) => {
            let v = expr_spec(m, e)->Some_0->Ok_0;
            lemma_fold_expr_sound(m, e, v);
            lemma_folding_keeps_follow(ns, f, ns[k].edge, m.insert(x@, v), m2);
        },
        Block::Condition(b) => {
            let v = bool_spec(m, b)->Some_0->Ok_0;
            lemma_fold_bool_sound(m, b, v);
            match ns[k].edge {
                Edge::If { true_branch, false_branch } => {
                    lemma_folding_keeps_runs(ns, f, if v { true_branch as int } else { false_branch as int }, m, m2);
                },
                _ => {
                    lemma_folding_keeps_follow(ns, f, ns[k].edge, m, m2);
                },
            }
        },
    }
}

/// What a definition place says of the value `v` of variable `x`: an
/// assignment node assigns `x`, and a constant assignment gave `v`.
pub open spec fn place_fits(g: CfgModel, x: Seq<char>, place: DefinitionPlace, v: i64) -> bool {
    match place {
        DefinitionPlace::Input => true,
        DefinitionPlace::Node(j) => {
            &&& j < g.nodes.len()
            &&& assigned(g.nodes[j as int].block) == Some(x)
            &&& (g.nodes[j as int].block matches Block::Assignment(_, Expr::Int(c)) ==> v == c)
        },
    }
}

/// Each variable of the memory was last assigned at the place `last`
/// gives, which is among the definitions `defs`.
pub open spec fn defs_explain(g: CfgModel, defs: Set<(Seq<char>, DefinitionPlace)>, m: Map<Seq<char>, i64>, last: Map<Seq<char>, DefinitionPlace>) -> bool {
    forall|x: Seq<char>| #[trigger] m.dom().contains(x) ==> {
        &&& last.dom().contains(x)
        &&& defs.contains((x, last[x]))
        &&& place_fits(g, x, last[x], m[x])
    }
}

/// The reaching definitions of the graph (entry and exit sets) solve their
/// equations.
pub open spec fn reaching_solved(g: CfgModel) -> bool {
    let sol = least_solution(reach_rule_in(g), reach_rule_out(g), g.nodes.len());
    is_solution(reach_rule_in(g), reach_rule_out(g), g.nodes.len(), sol.0, sol.1)
}

proof fn lemma_propagate_expr_sound(
    g: CfgModel,
    k: int,
    e: Expr,
    m: Map<Seq<char>, i64>,
    last: Map<Seq<char>, DefinitionPlace>,
    v: i64,
)
    requires
        0 <= k < g.nodes.len(),
        defs_explain(g, reaching_at(g)[k], m, last),
        expr_spec(m, e) == Some(Ok::<i64, ErrorModel>(v)),
    ensures
        expr_spec(m, propagate_expr_spec(g, k, e).0) == Some(Ok::<i64, ErrorModel>(v)),
    decreases e,
{
    match e {
        Expr::Var(x) => {
            if let Some(c) = constant_of(g, k, x@) {
                let defs = defs_of(reaching_at(g)[k], x@);
                let d = choose|d: (Seq<char>, DefinitionPlace)| defs == set![d];
                assert(m.dom().contains(x@));
                assert(defs.contains((x@, last[x@])));
                assert(d == (x@, last[x@]));
            }
        },
        Expr::Add(l, r) | Expr::Sub(l, r) | Expr::Mul(l, r) => {
            let a = expr_spec(m, *l)->Some_0->Ok_0;
            let b = expr_spec(m, *r)->Some_0->Ok_0;
            lemma_propagate_expr_sound(g, k, *l, m, last, a);
            lemma_propagate_expr_sound(g, k, *r, m, last, b);
        },
        _ => {},
    }
}

proof fn lemma_propagate_bool_sound(
    g: CfgModel,
    k: int,
    b: BoolExpr,
    m: Map<Seq<char>, i64>,
    last: Map<Seq<char>, DefinitionPlace>,
    v: bool,
)
    requires
        0 <= k < g.nodes.len(),
        defs_explain(g, reaching_at(g)[k], m, last),
        bool_spec(m, b) == Some(Ok::<bool, ErrorModel>(v)),
    ensures
        bool_spec(m, propagate_bool_spec(g, k, b).0) == Some(Ok::<bool, ErrorModel>(v)),
    decreases b,
{
    match b {
        BoolExpr::Less(l, r) => {
            let x = expr_spec(m, *l)->Some_0->Ok_0;
            let y = expr_spec(m, *r)->Some_0->Ok_0;
            lemma_propagate_expr_sound(g, k, *l, m, last, x);
            lemma_propagate_expr_sound(g, k, *r, m, last, y);
        },
        BoolExpr::And(l, r) => {
            let x = bool_spec(m, *l)->Some_0->Ok_0;
            let y = bool_spec(m, *r)->Some_0->Ok_0;
            lemma_propagate_bool_sound(g, k, *l, m, last, x);
            lemma_propagate_bool_sound(g, k, *r, m, last, y);
        },
        BoolExpr::Not(inner) => {
            let x = bool_spec(m, *inner)->Some_0->Ok_0;
            lemma_propagate_bool_sound(g, k, *inner, m, last, x);
        },
        _ => {},
    }
}

/// Going from node `k` along its edge in the propagated graph ends where it
/// ends in the graph, when the memory is explained by the definitions that
/// leave `k`.
proof fn lemma_propagation_keeps_follow(
    g: CfgModel,
    fuel: nat,
    k: int,
    m: Map<Seq<char>, i64>,
    last: Map<Seq<char>, DefinitionPlace>,
    m2: Map<Seq<char>, i64>,
)
    requires
        g.wf(),
        reaching_solved(g),
        0 <= k < g.nodes.len(),
        defs_explain(g, least_solution(reach_rule_in(g), reach_rule_out(g), g.nodes.len()).1[k], m, last),
        follow(g.nodes, fuel, g.nodes[k].edge, m) == Some(Ok::<Map<Seq<char>, i64>, ErrorModel>(m2)),
    ensures
        follow(propagated_nodes(g), fuel, g.nodes[k].edge, m) == Some(Ok::<Map<Seq<char>, i64>, ErrorModel>(m2)),
    decreases fuel, 1nat,
{
    let sol = least_solution(reach_rule_in(g), reach_rule_out(g), g.nodes.len());
    match g.nodes[k].edge {
        Edge::End => {},
        Edge::Next(j) => {
            lemma_into_successor(g, k, j as int, m, last);
            lemma_propagation_keeps_runs(g, fuel, j as int, m, last, m2);
        },
        Edge::If { true_branch, false_branch: _ } => {
            lemma_into_successor(g, k, true_branch as int, m, last);
            lemma_propagation_keeps_runs(g, fuel, true_branch as int, m, last, m2);
        },
    }
}

/// Definitions that leave a node reach each of its successors.
proof fn lemma_into_successor(
    g: CfgModel,
    k: int,
    j: int,
    m: Map<Seq<char>, i64>,
    last: Map<Seq<char>, DefinitionPlace>,
)
    requires
        g.wf(),
        reaching_solved(g),
        0 <= k < g.nodes.len(),
        0 <= j < g.nodes.len(),
        edge_has(g.nodes[k].edge, j),
        defs_explain(g, least_solution(reach_rule_in(g), reach_rule_out(g), g.nodes.len()).1[k], m, last),
    ensures
        defs_explain(g, reaching_at(g)[j], m, last),
{
    let sol = least_solution(reach_rule_in(g), reach_rule_out(g), g.nodes.len());
    assert(sol.0[j] == reach_in(g, j, sol.1));
    assert(is_pred(g.nodes, k, j));
    assert forall|x: Seq<char>| #[trigger] m.dom().contains(x) implies sol.0[j].contains((x, last[x])) by {
        assert(sol.1[k].contains((x, last[x])));
    }
}

/// Constant propagation keeps every run of the graph that reaches the exit,
/// from a node whose entry definitions explain the memory.
proof fn lemma_propagation_keeps_runs(
    g: CfgModel,
    fuel: nat,
    k: int,
    m: Map<Seq<char>, i64>,
    last: Map<Seq<char>, DefinitionPlace>,
    m2: Map<Seq<char>, i64>,
)
    requires
        g.wf(),
        reaching_solved(g),
        0 <= k < g.nodes.len(),
        defs_explain(g, reaching_at(g)[k], m, last),
        run_from(g.nodes, fuel, k, m) == Some(Ok::<Map<Seq<char>, i64>, ErrorModel>(m2)),
    ensures
        run_from(propagated_nodes(g), fuel, k, m) == Some(Ok::<Map<Seq<char>, i64>, ErrorModel>(m2)),
    decreases fuel, 0nat,
{
    let sol = least_solution(reach_rule_in(g), reach_rule_out(g), g.nodes.len());
    let ps = propagated_nodes(g);
    let f = (fuel - 1) as nat;
    assert(sol.1[k] == reach_out(g, k, sol.0[k]));
    assert(ps[k].edge == g.nodes[k].edge);
    assert(ps[k].block == propagate_block_spec(g, k).0);
    match g.nodes[k].block {
        Block::Skip => {
            lemma_propagation_keeps_follow(g, f, k, m, last, m2);
        },
        Block::Assignment(x, e) => {
            let v = expr_spec(m, e)->Some_0->Ok_0;
            lemma_propagate_expr_sound(g, k, e, m, last, v);
            let m1 = m.insert(x@, v);
            let last1 = last.insert(x@, DefinitionPlace::Node(k as usize));
            assert(g.nodes[k].id == k);
            assert forall|y: Seq<char>| #[trigger] m1.dom().contains(y) implies {
                &&& last1.dom().contains(y)
                &&& sol.1[k].contains((y, last1[y]))
                &&& place_fits(g, y, last1[y], m1[y])
            } by {
                if y != x@ {
                    assert(m.dom().contains(y));
                    assert(sol.0[k].contains((y, last[y])));
                }
            }
            lemma_propagation_keeps_follow(g, f, k, m1, last1, m2);
        },
        Block::Condition(b) => {
            let v = bool_spec(m, b)->Some_0->Ok_0;
            lemma_propagate_bool_sound(g, k, b, m, last, v);
            match g.nodes[k].edge {
                Edge::If { true_branch, false_branch } => {
                    let j = if v { true_branch as int } else { false_branch as int };
                    lemma_into_successor(g, k, j, m, last);
                    lemma_propagation_keeps_runs(g, f, j, m, last, m2);
                },
                _ => {
                    lemma_propagation_keeps_follow(g, f, k, m, last, m2);
                },
            }
        },
    }
}

/// The two memories agree on every variable of `s`: both have it or
/// neither, with the same value.
pub open spec fn agree_on(m1: Map<Seq<char>, i64>, m2: Map<Seq<char>, i64>, s: Set<Seq<char>>) -> bool {
    forall|x: Seq<char>| #[trigger] s.contains(x) ==> {
        &&& m1.dom().contains(x) == m2.dom().contains(x)
        &&& m1.dom().contains(x) ==> m1[x] == m2[x]
    }
}

/// The live variables of the graph (exit and entry sets) solve their
/// equations.
pub open spec fn liveness_solved(g: CfgModel) -> bool {
    let sol = least_solution(live_rule_out(g), live_rule_in(g), g.nodes.len());
    is_solution(live_rule_out(g), live_rule_in(g), g.nodes.len(), sol.0, sol.1)
}

/// The reaching-definitions equations of every graph have a least
/// solution.
pub proof fn lemma_reaching_solvable(g: CfgModel)
    ensures
        reaching_solved(g),
{
    lemma_reach_rules(g);
    lemma_least_solution_exists(reach_rule_in(g), reach_rule_out(g), g.nodes.len(), reach_universe(g));
}

/// The live-variables equations of every well-formed graph have a least
/// solution.
pub proof fn lemma_liveness_solvable(g: CfgModel)
    requires
        g.wf(),
    ensures
        liveness_solved(g),
{
    lemma_live_rules(g);
    lemma_least_solution_exists(live_rule_out(g), live_rule_in(g), g.nodes.len(), live_universe(g));
}

proof fn lemma_agree_within(m1: Map<Seq<char>, i64>, m2: Map<Seq<char>, i64>, s: Set<Seq<char>>, t: Set<Seq<char>>)
    requires
        agree_on(m1, m2, s.union(t)),
    ensures
        agree_on(m1, m2, s),
        agree_on(m1, m2, t),
{
    assert forall|x: Seq<char>| #[trigger] s.contains(x) implies s.union(t).contains(x) by {}
    assert forall|x: Seq<char>| #[trigger] t.contains(x) implies s.union(t).contains(x) by {}
}

proof fn lemma_expr_agree(m1: Map<Seq<char>, i64>, m2: Map<Seq<char>, i64>, e: Expr)
    requires
        agree_on(m1, m2, expr_vars(e)),
    ensures
        expr_spec(m1, e) == expr_spec(m2, e),
    decreases e,
{
    match e {
        Expr::Var(x) => {
            assert(expr_vars(e).contains(x@));
        },
        Expr::Add(l, r) | Expr::Sub(l, r) | Expr::Mul(l, r) => {
            lemma_agree_within(m1, m2, expr_vars(*l), expr_vars(*r));
            lemma_expr_agree(m1, m2, *l);
            lemma_expr_agree(m1, m2, *r);
        },
        _ => {},
    }
}

proof fn lemma_bool_agree(m1: Map<Seq<char>, i64>, m2: Map<Seq<char>, i64>, b: BoolExpr)
    requires
        agree_on(m1, m2, bool_vars(b)),
    ensures
        bool_spec(m1, b) == bool_spec(m2, b),
    decreases b,
{
    match b {
        BoolExpr::Less(l, r) => {
            lemma_agree_within(m1, m2, expr_vars(*l), expr_vars(*r));
            lemma_expr_agree(m1, m2, *l);
            lemma_expr_agree(m1, m2, *r);
        },
        BoolExpr::And(l, r) => {
            lemma_agree_within(m1, m2, bool_vars(*l), bool_vars(*r));
            lemma_bool_agree(m1, m2, *l);
            lemma_bool_agree(m1, m2, *r);
        },
        BoolExpr::Not(inner) => {
            lemma_bool_agree(m1, m2, *inner);
        },
        _ => {},
    }
}

/// Going from node `k` along its edge in the graph without dead stores,
/// with a memory that agrees on the variables live on exit from `k`, ends
/// with a memory that agrees on the output variable.
proof fn lemma_dse_keeps_follow(
    g: CfgModel,
    fuel: nat,
    k: int,
    m1: Map<Seq<char>, i64>,
    m2: Map<Seq<char>, i64>,
    r1: Map<Seq<char>, i64>,
) -> (r2: Map<Seq<char>, i64>)
    requires
        g.wf(),
        ends_only_at_exit(g),
        liveness_solved(g),
        0 <= k < g.nodes.len(),
        agree_on(m1, m2, live_at_exit(g)[k]),
        follow(g.nodes, fuel, g.nodes[k].edge, m1) == Some(Ok::<Map<Seq<char>, i64>, ErrorModel>(r1)),
    ensures
        follow(without_dead_stores(g), fuel, g.nodes[k].edge, m2) == Some(Ok::<Map<Seq<char>, i64>, ErrorModel>(r2)),
        agree_on(r1, r2, set![g.output_var]),
    decreases fuel, 1nat,
{
    let sol = least_solution(live_rule_out(g), live_rule_in(g), g.nodes.len());
    assert(sol.0[k] == live_out(g, k, sol.1));
    match g.nodes[k].edge {
        Edge::End => {
            assert(k == g.end as int);
            assert(sol.0[k].contains(g.output_var));
            m2
        },
        Edge::Next(j) => {
            lemma_live_into_successor(g, k, j as int, m1, m2);
            lemma_dse_keeps_runs(g, fuel, j as int, m1, m2, r1)
        },
        Edge::If { true_branch, false_branch: _ } => {
            lemma_live_into_successor(g, k, true_branch as int, m1, m2);
            lemma_dse_keeps_runs(g, fuel, true_branch as int, m1, m2, r1)
        },
    }
}

/// Memories that agree on what is live on exit from a node agree on what
/// is live on entry to each of its successors.
proof fn lemma_live_into_successor(g: CfgModel, k: int, j: int, m1: Map<Seq<char>, i64>, m2: Map<Seq<char>, i64>)
    requires
        g.wf(),
        liveness_solved(g),
        0 <= k < g.nodes.len(),
        0 <= j < g.nodes.len(),
        edge_has(g.nodes[k].edge, j),
        agree_on(m1, m2, live_at_exit(g)[k]),
    ensures
        agree_on(m1, m2, least_solution(live_rule_out(g), live_rule_in(g), g.nodes.len()).1[j]),
{
    let sol = least_solution(live_rule_out(g), live_rule_in(g), g.nodes.len());
    assert(sol.0[k] == live_out(g, k, sol.1));
    assert forall|x: Seq<char>| #[trigger] sol.1[j].contains(x) implies sol.0[k].contains(x) by {}
}

/// Dead-store elimination keeps the output of every run that reaches the
/// exit, from a node where the two memories agree on the live variables.
proof fn lemma_dse_keeps_runs(
    g: CfgModel,
    fuel: nat,
    k: int,
    m1: Map<Seq<char>, i64>,
    m2: Map<Seq<char>, i64>,
    r1: Map<Seq<char>, i64>,
) -> (r2: Map<Seq<char>, i64>)
    requires
        g.wf(),
        ends_only_at_exit(g),
        liveness_solved(g),
        0 <= k < g.nodes.len(),
        agree_on(m1, m2, least_solution(live_rule_out(g), live_rule_in(g), g.nodes.len()).1[k]),
        run_from(g.nodes, fuel, k, m1) == Some(Ok::<Map<Seq<char>, i64>, ErrorModel>(r1)),
    ensures
        run_from(without_dead_stores(g), fuel, k, m2) == Some(Ok::<Map<Seq<char>, i64>, ErrorModel>(r2)),
        agree_on(r1, r2, set![g.output_var]),
    decreases fuel, 0nat,
{
    let sol = least_solution(live_rule_out(g), live_rule_in(g), g.nodes.len());
    let cs = without_dead_stores(g);
    let f = (fuel - 1) as nat;
    assert(sol.1[k] == live_in(g, k, sol.0[k]));
    assert(cs[k].edge == g.nodes[k].edge);
    match g.nodes[k].block {
        Block::Skip => {
            assert(cs[k].block == Block::Skip);
            assert forall|x: Seq<char>| #[trigger] sol.0[k].contains(x) implies sol.1[k].contains(x) by {}
            lemma_dse_keeps_follow(g, f, k, m1, m2, r1)
        },
        Block::Assignment(x, e) => {
            let v = expr_spec(m1, e)->Some_0->Ok_0;
            let m1a = m1.insert(x@, v);
            if is_dead_store(g, k) {
                assert(cs[k].block == Block::Skip);
                assert forall|y: Seq<char>| #[trigger] sol.0[k].contains(y) implies {
                    &&& m1a.dom().contains(y) == m2.dom().contains(y)
                    &&& m1a.dom().contains(y) ==> m1a[y] == m2[y]
                } by {
                    assert(y != x@);
                    assert(sol.1[k].contains(y));
                }
                lemma_dse_keeps_follow(g, f, k, m1a, m2, r1)
            } else {
                assert(cs[k] == g.nodes[k]);
                assert forall|y: Seq<char>| #[trigger] expr_vars(e).contains(y) implies sol.1[k].contains(y) by {}
                lemma_expr_agree(m1, m2, e);
                let m2a = m2.insert(x@, v);
                assert forall|y: Seq<char>| #[trigger] sol.0[k].contains(y) implies {
                    &&& m1a.dom().contains(y) == m2a.dom().contains(y)
                    &&& m1a.dom().contains(y) ==> m1a[y] == m2a[y]
                } by {
                    if y != x@ {
                        assert(sol.1[k].contains(y));
                    }
                }
                lemma_dse_keeps_follow(g, f, k, m1a, m2a, r1)
            }
        },
        Block::Condition(b) => {
            assert(cs[k] == g.nodes[k]);
            assert forall|y: Seq<char>| #[trigger] bool_vars(b).contains(y) implies sol.1[k].contains(y) by {}
            lemma_bool_agree(m1, m2, b);
            assert forall|y: Seq<char>| #[trigger] sol.0[k].contains(y) implies sol.1[k].contains(y) by {}
            let v = bool_spec(m1, b)->Some_0->Ok_0;
            match g.nodes[k].edge {
                Edge::If { true_branch, false_branch } => {
                    let j = if v { true_branch as int } else { false_branch as int };
                    lemma_live_into_successor(g, k, j, m1, m2);
                    lemma_dse_keeps_runs(g, f, j, m1, m2, r1)
                },
                _ => lemma_dse_keeps_follow(g, f, k, m1, m2, r1),
            }
        },
    }
}

/// Every run of `g` from its start node on an input that reaches the exit
/// ends with the same memory in `h`, run from its start node on that input
/// with the same fuel.
pub open spec fn keeps_runs(g: CfgModel, h: CfgModel) -> bool {
    forall|fuel: nat, v: i64|
        #![trigger run_from(g.nodes, fuel, g.start as int, input_memory(g.input_var, v))]
        run_from(g.nodes, fuel, g.start as int, input_memory(g.input_var, v)) matches Some(Ok(m))
            ==> run_from(h.nodes, fuel, h.start as int, input_memory(h.input_var, v))
            == Some(Ok::<Map<Seq<char>, i64>, ErrorModel>(m))
}

/// Every run of `g` from its start node on an input that reaches the exit
/// also reaches the exit in `h`, run from its start node on that input with
/// the same fuel, with the same output variable (both unset, or both with
/// the same value).
pub open spec fn keeps_output(g: CfgModel, h: CfgModel) -> bool {
    forall|fuel: nat, v: i64|
        #![trigger run_from(g.nodes, fuel, g.start as int, input_memory(g.input_var, v))]
        run_from(g.nodes, fuel, g.start as int, input_memory(g.input_var, v)) matches Some(Ok(m))
            ==> run_from(h.nodes, fuel, h.start as int, input_memory(h.input_var, v)) matches Some(Ok(m2))
            && agree_on(m, m2, set![g.output_var])
}

/// Constant folding keeps every run of a graph that reaches the exit.
pub proof fn lemma_folding_keeps_graph_runs(g: CfgModel)
    requires
        folds_ok(g.nodes),
    ensures
        keeps_runs(g, g.with_nodes(folded_nodes(g.nodes))),
{
    assert forall|fuel: nat, v: i64|
        #![trigger run_from(g.nodes, fuel, g.start as int, input_memory(g.input_var, v))]
        run_from(g.nodes, fuel, g.start as int, input_memory(g.input_var, v)) matches Some(Ok(m))
            ==> run_from(folded_nodes(g.nodes), fuel, g.start as int, input_memory(g.input_var, v))
            == Some(Ok::<Map<Seq<char>, i64>, ErrorModel>(m)) by {
        if let Some(Ok(m)) = run_from(g.nodes, fuel, g.start as int, input_memory(g.input_var, v)) {
            lemma_folding_keeps_runs(g.nodes, fuel, g.start as int, input_memory(g.input_var, v), m);
        }
    }
}

/// Constant propagation keeps every run of a well-formed graph that
/// reaches the exit.
pub proof fn lemma_propagation_keeps_graph_runs(g: CfgModel)
    requires
        g.wf(),
    ensures
        keeps_runs(g, g.with_nodes(propagated_nodes(g))),
{
    lemma_reaching_solvable(g);
    let sol = least_solution(reach_rule_in(g), reach_rule_out(g), g.nodes.len());
    let s = g.start as int;
    assert(sol.0[s] == reach_in(g, s, sol.1));
    assert forall|fuel: nat, v: i64|
        #![trigger run_from(g.nodes, fuel, g.start as int, input_memory(g.input_var, v))]
        run_from(g.nodes, fuel, g.start as int, input_memory(g.input_var, v)) matches Some(Ok(m))
            ==> run_from(propagated_nodes(g), fuel, g.start as int, input_memory(g.input_var, v))
            == Some(Ok::<Map<Seq<char>, i64>, ErrorModel>(m)) by {
        if let Some(Ok(m)) = run_from(g.nodes, fuel, g.start as int, input_memory(g.input_var, v)) {
            let m0 = input_memory(g.input_var, v);
            let last0 = Map::<Seq<char>, DefinitionPlace>::empty().insert(g.input_var, DefinitionPlace::Input);
            assert(defs_explain(g, reaching_at(g)[s], m0, last0)) by {
                assert forall|x: Seq<char>| #[trigger] m0.dom().contains(x) implies {
                    &&& last0.dom().contains(x)
                    &&& reaching_at(g)[s].contains((x, last0[x]))
                    &&& place_fits(g, x, last0[x], m0[x])
                } by {
                    assert(x == g.input_var);
                }
            }
            lemma_propagation_keeps_runs(g, fuel, s, m0, last0, m);
        }
    }
}

/// Dead-store elimination keeps the output of every run of a well-formed
/// graph that reaches the exit, when only its exit node ends runs.
pub proof fn lemma_dse_keeps_graph_output(g: CfgModel)
    requires
        g.wf(),
        ends_only_at_exit(g),
    ensures
        keeps_output(g, g.with_nodes(without_dead_stores(g))),
{
    lemma_liveness_solvable(g);
    let s = g.start as int;
    assert forall|fuel: nat, v: i64|
        #![trigger run_from(g.nodes, fuel, g.start as int, input_memory(g.input_var, v))]
        run_from(g.nodes, fuel, g.start as int, input_memory(g.input_var, v)) matches Some(Ok(m))
            ==> run_from(without_dead_stores(g), fuel, g.start as int, input_memory(g.input_var, v)) matches Some(Ok(m2))
            && agree_on(m, m2, set![g.output_var]) by {
        if let Some(Ok(m)) = run_from(g.nodes, fuel, g.start as int, input_memory(g.input_var, v)) {
            let m0 = input_memory(g.input_var, v);
            let sol = least_solution(live_rule_out(g), live_rule_in(g), g.nodes.len());
            assert(agree_on(m0, m0, sol.1[s]));
            let m2 = lemma_dse_keeps_runs(g, fuel, s, m0, m0, m);
        }
    }
}

/// A graph keeps its own runs.
pub proof fn lemma_keeps_runs_refl(g: CfgModel)
    ensures
        keeps_runs(g, g),
{
}

/// Keeping runs composes.
pub proof fn lemma_keeps_runs_compose(g: CfgModel, h: CfgModel, i: CfgModel)
    requires
        keeps_runs(g, h),
        keeps_runs(h, i),
    ensures
        keeps_runs(g, i),
{
    assert forall|fuel: nat, v: i64|
        #![trigger run_from(g.nodes, fuel, g.start as int, input_memory(g.input_var, v))]
        run_from(g.nodes, fuel, g.start as int, input_memory(g.input_var, v)) matches Some(Ok(m))
            ==> run_from(i.nodes, fuel, i.start as int, input_memory(i.input_var, v))
            == Some(Ok::<Map<Seq<char>, i64>, ErrorModel>(m)) by {
        if let Some(Ok(m)) = run_from(g.nodes, fuel, g.start as int, input_memory(g.input_var, v)) {
            assert(run_from(h.nodes, fuel, h.start as int, input_memory(h.input_var, v))
                == Some(Ok::<Map<Seq<char>, i64>, ErrorModel>(m)));
        }
    }
}

/// A change that keeps runs, then one that keeps the output, keeps the
/// output.
pub proof fn lemma_keeps_runs_then_output(g: CfgModel, h: CfgModel, i: CfgModel)
    requires
        keeps_runs(g, h),
        keeps_output(h, i),
        h.output_var == g.output_var,
    ensures
        keeps_output(g, i),
{
    assert forall|fuel: nat, v: i64|
        #![trigger run_from(g.nodes, fuel, g.start as int, input_memory(g.input_var, v))]
        run_from(g.nodes, fuel, g.start as int, input_memory(g.input_var, v)) matches Some(Ok(m))
            ==> run_from(i.nodes, fuel, i.start as int, input_memory(i.input_var, v)) matches Some(Ok(m2))
            && agree_on(m, m2, set![g.output_var]) by {
        if let Some(Ok(m)) = run_from(g.nodes, fuel, g.start as int, input_memory(g.input_var, v)) {
            assert(run_from(h.nodes, fuel, h.start as int, input_memory(h.input_var, v))
                == Some(Ok::<Map<Seq<char>, i64>, ErrorModel>(m)));
        }
    }
}

/// The optimised control-flow graph of a program computes the program's
/// output: when a run of the program ends with an output, running the
/// optimised graph from its start node on the same input, with enough fuel,
/// ends with the output variable holding that output.
pub proof fn lemma_optimized_graph_computes_program(p: Program, fuel: nat, input: i64, out: i64) -> (d: nat)
    requires
        cmd_nodes(p.body) <= usize::MAX,
        optimize_spec(program_cfg(p)) is Some,
        program_spec(fuel, p, input) == Some(Ok::<i64, ErrorModel>(out)),
    ensures
        ({
            let h = optimize_spec(program_cfg(p))->Some_0;
            run_from(h.nodes, d, h.start as int, input_memory(h.input_var, input)) matches Some(Ok(m))
                && m.dom().contains(p.output_var@) && m[p.output_var@] == out
        }),
{
    let g = program_cfg(p);
    lemma_program_cfg_wf(p);
    let d = lemma_graph_runs_like_program(p, fuel, input);
    lemma_optimize_keeps_output(g);
    let m = run_from(g.nodes, d, g.start as int, input_memory(g.input_var, input))->Some_0->Ok_0;
    assert(set![g.output_var].contains(g.output_var));
    d
}

/// The defined variables of the graph (entry and exit sets) solve their
/// equations.
pub open spec fn definedness_solved(g: CfgModel) -> bool {
    let sol = defined_solution(g);
    is_solution(defined_rule_in(g), defined_rule_out(g), g.nodes.len(), sol.0, sol.1)
}

/// No read is reported as possibly undefined: every variable that a node
/// reads is surely defined on entry to it.
proof fn lemma_no_missing_reads(g: CfgModel, m: int)
    requires
        0 <= m <= g.nodes.len(),
        undefined_reads(g, m).len() == 0,
    ensures
        forall|k: int, i: int|
            0 <= k < m && 0 <= i < block_var_list(g.nodes[k].block).len()
                ==> defined_at_entry(g)[k].contains(#[trigger] block_var_list(g.nodes[k].block)[i]),
    decreases m,
{
    if m > 0 {
        lemma_no_missing_reads(g, m - 1);
        let vars = block_var_list(g.nodes[m - 1].block);
        lemma_missing_reads_empty(vars, defined_at_entry(g)[m - 1], g.nodes[m - 1].id);
    }
}

proof fn lemma_missing_reads_empty(vars: Seq<Seq<char>>, defined: Set<Seq<char>>, id: usize)
    requires
        missing_reads(vars, defined, id).len() == 0,
    ensures
        forall|i: int| 0 <= i < vars.len() ==> defined.contains(#[trigger] vars[i]),
    decreases vars.len(),
{
    if vars.len() > 0 {
        lemma_missing_reads_empty(vars.drop_last(), defined, id);
        assert forall|i: int| 0 <= i < vars.len() implies defined.contains(#[trigger] vars[i]) by {
            if i < vars.len() - 1 {
                assert(vars[i] == vars.drop_last()[i]);
            }
        }
    }
}

/// An arithmetic expression whose variables the memory all has gives no
/// error.
proof fn lemma_expr_no_error(m: Map<Seq<char>, i64>, e: Expr)
    requires
        forall|i: int| 0 <= i < expr_var_list(e).len() ==> m.dom().contains(#[trigger] expr_var_list(e)[i]),
    ensures
        !(expr_spec(m, e) matches Some(Err(_))),
    decreases e,
{
    match e {
        Expr::Var(x) => {
            assert(expr_var_list(e)[0] == x@);
        },
        Expr::Add(l, r) | Expr::Sub(l, r) | Expr::Mul(l, r) => {
            let ll = expr_var_list(*l);
            let rl = expr_var_list(*r);
            assert forall|i: int| 0 <= i < ll.len() implies m.dom().contains(#[trigger] ll[i]) by {
                assert(expr_var_list(e)[i] == ll[i]);
            }
            assert forall|i: int| 0 <= i < rl.len() implies m.dom().contains(#[trigger] rl[i]) by {
                assert(expr_var_list(e)[ll.len() + i] == rl[i]);
            }
            lemma_expr_no_error(m, *l);
            lemma_expr_no_error(m, *r);
        },
        _ => {},
    }
}

/// A boolean expression whose variables the memory all has gives no error.
proof fn lemma_bool_no_error(m: Map<Seq<char>, i64>, b: BoolExpr)
    requires
        forall|i: int| 0 <= i < bool_var_list(b).len() ==> m.dom().contains(#[trigger] bool_var_list(b)[i]),
    ensures
        !(bool_spec(m, b) matches Some(Err(_))),
    decreases b,
{
    match b {
        BoolExpr::Less(l, r) => {
            let ll = expr_var_list(*l);
            let rl = expr_var_list(*r);
            assert forall|i: int| 0 <= i < ll.len() implies m.dom().contains(#[trigger] ll[i]) by {
                assert(bool_var_list(b)[i] == ll[i]);
            }
            assert forall|i: int| 0 <= i < rl.len() implies m.dom().contains(#[trigger] rl[i]) by {
                assert(bool_var_list(b)[ll.len() + i] == rl[i]);
            }
            lemma_expr_no_error(m, *l);
            lemma_expr_no_error(m, *r);
        },
        BoolExpr::And(l, r) => {
            let ll = bool_var_list(*l);
            let rl = bool_var_list(*r);
            assert forall|i: int| 0 <= i < ll.len() implies m.dom().contains(#[trigger] ll[i]) by {
                assert(bool_var_list(b)[i] == ll[i]);
            }
            assert forall|i: int| 0 <= i < rl.len() implies m.dom().contains(#[trigger] rl[i]) by {
                assert(bool_var_list(b)[ll.len() + i] == rl[i]);
            }
            lemma_bool_no_error(m, *l);
            lemma_bool_no_error(m, *r);
        },
        BoolExpr::Not(inner) => {
            assert(bool_var_list(b) == bool_var_list(*inner));
            lemma_bool_no_error(m, *inner);
        },
        _ => {},
    }
}

/// Going from node `k` along its edge with a memory that has the input
/// variable and every variable surely defined on exit from `k` gives no
/// error.
proof fn lemma_defined_follow(g: CfgModel, fuel: nat, k: int, m: Map<Seq<char>, i64>)
    requires
        g.wf(),
        definedness_solved(g),
        undefined_reads(g, g.nodes.len() as int).len() == 0,
        0 <= k < g.nodes.len(),
        m.dom().contains(g.input_var),
        defined_solution(g).1[k].subset_of(m.dom()),
    ensures
        !(follow(g.nodes, fuel, g.nodes[k].edge, m) matches Some(Err(_))),
    decreases fuel, 1nat,
{
    match g.nodes[k].edge {
        Edge::End => {},
        Edge::Next(j) => {
            lemma_defined_into_successor(g, k, j as int, m);
            lemma_defined_runs(g, fuel, j as int, m);
        },
        Edge::If { true_branch, false_branch: _ } => {
            lemma_defined_into_successor(g, k, true_branch as int, m);
            lemma_defined_runs(g, fuel, true_branch as int, m);
        },
    }
}

/// What is surely defined on exit from a node is, with the input variable,
/// enough for what is surely defined on entry to each successor.
proof fn lemma_defined_into_successor(g: CfgModel, k: int, j: int, m: Map<Seq<char>, i64>)
    requires
        g.wf(),
        definedness_solved(g),
        0 <= k < g.nodes.len(),
        0 <= j < g.nodes.len(),
        edge_has(g.nodes[k].edge, j),
        m.dom().contains(g.input_var),
        defined_solution(g).1[k].subset_of(m.dom()),
    ensures
        defined_at_entry(g)[j].subset_of(m.dom()),
{
    let sol = defined_solution(g);
    assert(sol.0[j] == defined_in(g, j, sol.1));
    assert(is_pred(g.nodes, k, j));
    assert forall|x: Seq<char>| #[trigger] sol.0[j].contains(x) implies m.dom().contains(x) by {
        if j != g.start as int {
            assert(sol.1[k].contains(x));
        }
    }
}

/// Running from node `k` with a memory that has the input variable and
/// every variable surely defined on entry to `k` gives no error.
proof fn lemma_defined_runs(g: CfgModel, fuel: nat, k: int, m: Map<Seq<char>, i64>)
    requires
        g.wf(),
        definedness_solved(g),
        undefined_reads(g, g.nodes.len() as int).len() == 0,
        0 <= k < g.nodes.len(),
        m.dom().contains(g.input_var),
        defined_at_entry(g)[k].subset_of(m.dom()),
    ensures
        !(run_from(g.nodes, fuel, k, m) matches Some(Err(_))),
    decreases fuel, 0nat,
{
    if fuel > 0 {
        let sol = defined_solution(g);
        let f = (fuel - 1) as nat;
        lemma_no_missing_reads(g, g.nodes.len() as int);
        assert(sol.1[k] == defined_out(g, k, sol.0[k]));
        let vars = block_var_list(g.nodes[k].block);
        assert forall|i: int| 0 <= i < vars.len() implies m.dom().contains(#[trigger] vars[i]) by {
            assert(sol.0[k].contains(vars[i]));
        }
        match g.nodes[k].block {
            Block::Skip => {
                lemma_defined_follow(g, f, k, m);
            },
            Block::Assignment(x, e) => {
                lemma_expr_no_error(m, e);
                if let Some(Ok(v)) = expr_spec(m, e) {
                    lemma_defined_follow(g, f, k, m.insert(x@, v));
                }
            },
            Block::Condition(b) => {
                lemma_bool_no_error(m, b);
                if let Some(Ok(v)) = bool_spec(m, b) {
                    match g.nodes[k].edge {
                        Edge::If { true_branch, false_branch } => {
                            let j = if v { true_branch as int } else { false_branch as int };
                            lemma_defined_into_successor(g, k, j, m);
                            lemma_defined_runs(g, f, j, m);
                        },
                        _ => {
                            lemma_defined_follow(g, f, k, m);
                        },
                    }
                }
            },
        }
    }
}

/// When no read of a well-formed graph is reported as possibly undefined,
/// no run of the graph from its start node on any input ends with an error.
pub proof fn lemma_no_undefined_reads_no_errors(g: CfgModel, fuel: nat, v: i64)
    requires
        g.wf(),
        undefined_reads(g, g.nodes.len() as int).len() == 0,
    ensures
        !(run_from(g.nodes, fuel, g.start as int, input_memory(g.input_var, v)) matches Some(Err(_))),
{
    lemma_defined_solution(g);
    let sol = defined_solution(g);
    let s = g.start as int;
    assert(sol.0[s] == defined_in(g, s, sol.1));
    lemma_defined_runs(g, fuel, s, input_memory(g.input_var, v));
}

/// When no read of the graph of a program is reported as possibly
/// undefined, running the program never fails with an undefined variable.
pub proof fn lemma_checked_program_reads_only_defined(p: Program, fuel: nat, v: i64)
    requires
        cmd_nodes(p.body) <= usize::MAX,
        undefined_reads(program_cfg(p), program_cfg(p).nodes.len() as int).len() == 0,
    ensures
        !(program_spec(fuel, p, v) matches Some(Err(ErrorModel::UndefinedVariable(_)))),
{
    lemma_program_cfg_wf(p);
    if program_spec(fuel, p, v) is Some {
        let d = lemma_graph_runs_like_program(p, fuel, v);
        lemma_no_undefined_reads_no_errors(program_cfg(p), d, v);
    }
}

} // verus!
