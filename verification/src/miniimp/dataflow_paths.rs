//! What the dataflow analyses say of the paths of a control-flow graph.
//!
//! A path is a list of nodes in which each node's edge leads to the next.
//! Every solution of an analysis's equations (so in particular the one
//! that the analysis computes) is sound for paths: the defined
//! variables of a node are assigned on every path from the start node to it,
//! the reaching definitions of a node hold the last definition of each
//! variable along every such path, and the live variables of a node hold
//! every variable that some path from it reads before assigning it. The
//! computed solutions are also complete: every live variable is live along
//! a path, and, where every node can be reached from the start node (as in
//! the graph of a program, whose every node lies on a path from its start
//! node to its exit), every reaching definition reaches along a path and
//! every variable defined on every path is among the defined variables.
use vstd::prelude::*;
use crate::miniimp::ast::{Cmd, Program};
use crate::miniimp::cfg::{
    Block, CfgModel, Edge, Node, nodes_wf, build_spec, cmd_nodes, program_cfg, push_node, lemma_build_shape,
    edge_in, lemma_program_cfg_wf,
};
use crate::miniimp::cfg_semantics::{holds_build, lemma_holds_build_parts};
use crate::miniimp::dataflow::{
    assigned, block_uses, edge_has, is_pred, defined_rule_in, defined_rule_out, defined_in, defined_out,
    reach_rule_in, reach_rule_out, reach_in, reach_out, live_rule_out, live_rule_in, live_out, live_in,
    lemma_reach_rules, lemma_live_rules, reach_universe, live_universe, defined_universe, defined_solution,
    lemma_defined_solution, lemma_assigned_names,
};
use crate::miniimp::fixpoint::{is_solution, le, within, least_solution, lemma_least_solution_exists};
use crate::miniimp::sets::DefinitionPlace;

verus! {

/// `ps` is a path of the graph: its nodes are nodes of the graph, and each
/// one's edge leads to the next.
pub open spec fn is_path(g: CfgModel, ps: Seq<int>) -> bool {
    &&& ps.len() > 0
    &&& forall|i: int| 0 <= i < ps.len() ==> 0 <= #[trigger] ps[i] < g.nodes.len()
    &&& forall|i: int| 0 <= i < ps.len() - 1 ==> edge_has(g.nodes[#[trigger] ps[i]].edge, ps[i + 1])
}

/// `ps` is a path of the graph from its start node.
pub open spec fn is_start_path(g: CfgModel, ps: Seq<int>) -> bool {
    is_path(g, ps) && ps[0] == g.start as int
}

/// Where `x` was last defined before the last node of a path from the start
/// node: the last node before it that assigns `x`, else the input when `x`
/// is the input variable.
pub open spec fn last_def(g: CfgModel, ps: Seq<int>, x: Seq<char>) -> Option<DefinitionPlace>
    decreases ps.len(),
{
    if ps.len() <= 1 {
        if x == g.input_var { Some(DefinitionPlace::Input) } else { None }
    } else {
        let p = ps[ps.len() - 2];
        if assigned(g.nodes[p].block) == Some(x) {
            Some(DefinitionPlace::Node(p as usize))
        } else {
            last_def(g, ps.drop_last(), x)
        }
    }
}

proof fn lemma_path_drop_last(g: CfgModel, ps: Seq<int>)
    requires
        is_path(g, ps),
        ps.len() > 1,
    ensures
        is_path(g, ps.drop_last()),
        is_pred(g.nodes, ps[ps.len() - 2], ps.last()),
{
    let q = ps.drop_last();
    assert forall|i: int| 0 <= i < q.len() implies 0 <= #[trigger] q[i] < g.nodes.len() by {
        assert(q[i] == ps[i]);
    }
    assert forall|i: int| 0 <= i < q.len() - 1 implies edge_has(g.nodes[#[trigger] q[i]].edge, q[i + 1]) by {
        assert(q[i] == ps[i] && q[i + 1] == ps[i + 1]);
    }
    assert(0 <= ps[ps.len() - 2] < g.nodes.len());
    assert(edge_has(g.nodes[ps[ps.len() - 2]].edge, ps[ps.len() - 2 + 1]));
}

proof fn lemma_path_drop_first(g: CfgModel, ps: Seq<int>)
    requires
        is_path(g, ps),
        ps.len() > 1,
    ensures
        is_path(g, ps.drop_first()),
        edge_has(g.nodes[ps[0]].edge, ps[1]),
{
    let q = ps.drop_first();
    assert forall|i: int| 0 <= i < q.len() implies 0 <= #[trigger] q[i] < g.nodes.len() by {
        assert(q[i] == ps[i + 1]);
    }
    assert forall|i: int| 0 <= i < q.len() - 1 implies edge_has(g.nodes[#[trigger] q[i]].edge, q[i + 1]) by {
        assert(q[i] == ps[i + 1] && q[i + 1] == ps[i + 2]);
    }
    assert(0 <= ps[0] < g.nodes.len());
}

/// Defined variables are defined on every path: a variable in the entry set
/// of a node, in any solution of the defined-variables equations, is the
/// input variable or is assigned by some node before the last on every path
/// from the start node to that node.
pub proof fn lemma_defined_on_every_path(
    g: CfgModel,
    ins: Seq<Set<Seq<char>>>,
    outs: Seq<Set<Seq<char>>>,
    ps: Seq<int>,
    x: Seq<char>,
)
    requires
        is_solution(defined_rule_in(g), defined_rule_out(g), g.nodes.len(), ins, outs),
        is_start_path(g, ps),
        ins[ps.last()].contains(x),
    ensures
        x == g.input_var || exists|i: int| 0 <= i < ps.len() - 1 && assigned(g.nodes[#[trigger] ps[i]].block) == Some(x),
    decreases ps.len(),
{
    let n = ps.last();
    assert(0 <= n < g.nodes.len());
    assert(ins[n] == defined_in(g, n, outs));
    if ps.len() > 1 && n != g.start as int {
        lemma_path_drop_last(g, ps);
        let p = ps[ps.len() - 2];
        assert(outs[p].contains(x));
        assert(outs[p] == defined_out(g, p, ins[p]));
        if assigned(g.nodes[p].block) != Some(x) {
            let q = ps.drop_last();
            assert(q.last() == p);
            lemma_defined_on_every_path(g, ins, outs, q, x);
            if x != g.input_var {
                let i = choose|i: int| 0 <= i < q.len() - 1 && assigned(g.nodes[#[trigger] q[i]].block) == Some(x);
                assert(ps[i] == q[i]);
            }
        }
    }
}

/// Reaching definitions hold every definition that reaches along a path:
/// in any solution of the reaching-definitions equations, the entry set of
/// the last node of a path from the start node holds the last definition of
/// each variable along the path.
pub proof fn lemma_reaching_along_paths(
    g: CfgModel,
    ins: Seq<Set<(Seq<char>, DefinitionPlace)>>,
    outs: Seq<Set<(Seq<char>, DefinitionPlace)>>,
    ps: Seq<int>,
    x: Seq<char>,
)
    requires
        is_solution(reach_rule_in(g), reach_rule_out(g), g.nodes.len(), ins, outs),
        is_start_path(g, ps),
        last_def(g, ps, x) is Some,
    ensures
        ins[ps.last()].contains((x, last_def(g, ps, x)->Some_0)),
    decreases ps.len(),
{
    let n = ps.last();
    assert(0 <= n < g.nodes.len());
    assert(ins[n] == reach_in(g, n, outs));
    if ps.len() > 1 {
        lemma_path_drop_last(g, ps);
        let p = ps[ps.len() - 2];
        let q = ps.drop_last();
        assert(q.last() == p);
        assert(outs[p] == reach_out(g, p, ins[p]));
        let d = (x, last_def(g, ps, x)->Some_0);
        if assigned(g.nodes[p].block) != Some(x) {
            lemma_reaching_along_paths(g, ins, outs, q, x);
        }
        assert(outs[p].contains(d));
        assert(is_pred(g.nodes, p, n) && outs[p].contains(d));
    }
}

/// A variable that a path from a node reads before any node of the path
/// assigns it, or that is the output variable at the end node with no node
/// of the path assigning it, is live: in any solution of the live-variables
/// equations, it is in the entry set of the path's first node.
pub proof fn lemma_live_along_paths(
    g: CfgModel,
    outs: Seq<Set<Seq<char>>>,
    ins: Seq<Set<Seq<char>>>,
    ps: Seq<int>,
    x: Seq<char>,
)
    requires
        is_solution(live_rule_out(g), live_rule_in(g), g.nodes.len(), outs, ins),
        is_path(g, ps),
        forall|i: int| 0 <= i < ps.len() - 1 ==> assigned(g.nodes[#[trigger] ps[i]].block) != Some(x),
        block_uses(g.nodes[ps.last()].block).contains(x) || (ps.last() == g.end as int && x == g.output_var
            && assigned(g.nodes[ps.last()].block) != Some(x)),
    ensures
        ins[ps[0]].contains(x),
    decreases ps.len(),
{
    let n = ps[0];
    assert(0 <= n < g.nodes.len());
    assert(ins[n] == live_in(g, n, outs[n]));
    assert(outs[n] == live_out(g, n, ins));
    if ps.len() > 1 {
        lemma_path_drop_first(g, ps);
        let q = ps.drop_first();
        assert(q.last() == ps.last());
        assert forall|i: int| 0 <= i < q.len() - 1 implies assigned(g.nodes[#[trigger] q[i]].block) != Some(x) by {
            assert(q[i] == ps[i + 1]);
        }
        lemma_live_along_paths(g, outs, ins, q, x);
        assert(ins[ps[1]].contains(x));
        assert(outs[n].contains(x));
        assert(assigned(g.nodes[ps[0]].block) != Some(x));
    }
}

// ---------------------------------------------------------------------------
// Every node of a program's graph lies between its start and its exit

/// `ps` is a path through the nodes `ns`: every entry is a node, and each
/// node's edge leads to the next.
pub open spec fn node_path(ns: Seq<Node>, ps: Seq<int>) -> bool {
    &&& ps.len() > 0
    &&& forall|i: int| 0 <= i < ps.len() ==> 0 <= #[trigger] ps[i] < ns.len()
    &&& forall|i: int| 0 <= i < ps.len() - 1 ==> edge_has(ns[#[trigger] ps[i]].edge, ps[i + 1])
}

/// Some path through `ns` goes from node `a` to node `b`.
#[verifier::opaque]
pub open spec fn connects(ns: Seq<Node>, a: int, b: int) -> bool {
    exists|ps: Seq<int>| #[trigger] node_path(ns, ps) && ps[0] == a && ps.last() == b
}

proof fn lemma_connects_refl(ns: Seq<Node>, a: int)
    requires
        0 <= a < ns.len(),
    ensures
        connects(ns, a, a),
{
    reveal(connects);
    let ps = seq![a];
    assert(node_path(ns, ps) && ps[0] == a && ps.last() == a);
}

proof fn lemma_connects_step(ns: Seq<Node>, a: int, b: int)
    requires
        0 <= a < ns.len(),
        0 <= b < ns.len(),
        edge_has(ns[a].edge, b),
    ensures
        connects(ns, a, b),
{
    reveal(connects);
    let ps = seq![a, b];
    assert(node_path(ns, ps)) by {
        assert forall|i: int| 0 <= i < ps.len() - 1 implies edge_has(ns[#[trigger] ps[i]].edge, ps[i + 1]) by {
            assert(i == 0);
        }
    }
    assert(ps[0] == a && ps.last() == b);
}

proof fn lemma_connects_trans(ns: Seq<Node>, a: int, b: int, c: int)
    requires
        connects(ns, a, b),
        connects(ns, b, c),
    ensures
        connects(ns, a, c),
{
    reveal(connects);
    let p = choose|ps: Seq<int>| node_path(ns, ps) && ps[0] == a && ps.last() == b;
    let q = choose|ps: Seq<int>| node_path(ns, ps) && ps[0] == b && ps.last() == c;
    let r = p + q.drop_first();
    assert(node_path(ns, r)) by {
        assert forall|i: int| 0 <= i < r.len() implies 0 <= #[trigger] r[i] < ns.len() by {
            if i >= p.len() {
                assert(r[i] == q[i - p.len() + 1]);
            }
        }
        assert forall|i: int| 0 <= i < r.len() - 1 implies edge_has(ns[#[trigger] r[i]].edge, r[i + 1]) by {
            if i < p.len() - 1 {
                assert(r[i] == p[i] && r[i + 1] == p[i + 1]);
            } else if i == p.len() - 1 {
                assert(r[i] == q[0] && r[i + 1] == q[1]);
            } else {
                assert(r[i] == q[i - p.len() + 1] && r[i + 1] == q[i - p.len() + 2]);
            }
        }
    }
    if q.len() == 1 {
        assert(r.last() == p.last());
    } else {
        assert(r.last() == q.last());
    }
}

/// In a graph that holds the nodes of a command's graph, every node of
/// the command lies on a path from the command's first node to its last.
proof fn lemma_build_connects(g: Seq<Node>, ns: Seq<Node>, c: Cmd)
    requires
        nodes_wf(ns),
        ns.len() + cmd_nodes(c) <= usize::MAX,
        holds_build(g, ns, c),
    ensures
        forall|i: int|
            #![trigger connects(g, build_spec(ns, c).1, i)]
            #![trigger connects(g, i, build_spec(ns, c).2)]
            ns.len() <= i < build_spec(ns, c).0.len() ==>
            connects(g, build_spec(ns, c).1, i) && connects(g, i, build_spec(ns, c).2),
    decreases c,
{
    lemma_build_shape(ns, c);
    lemma_holds_build_parts(g, ns, c);
    let (n, s, e) = build_spec(ns, c);
    match c {
        Cmd::Skip | Cmd::Assign(_, _) => {
            assert(s == ns.len() && e == ns.len() && n.len() == ns.len() + 1);
            lemma_connects_refl(g, s);
            assert forall|i: int|
                #![trigger connects(g, s, i)]
                #![trigger connects(g, i, e)]
                ns.len() <= i < n.len() implies connects(g, s, i) && connects(g, i, e) by {
                assert(i == s);
            }
        },
        Cmd::Sequence(a, b) => {
            let (n1, s1, e1) = build_spec(ns, *a);
            let (n2, s2, e2) = build_spec(n1, *b);
            lemma_build_shape(ns, *a);
            lemma_build_shape(n1, *b);
            lemma_build_connects(g, ns, *a);
            lemma_build_connects(g, n1, *b);
            assert(connects(g, s1, e1) && connects(g, e1, e1));
            assert(connects(g, s2, s2) && connects(g, s2, e2));
            lemma_connects_step(g, e1, s2);
            lemma_connects_trans(g, e1, s2, e2);
            lemma_connects_trans(g, s1, e1, s2);
            assert forall|i: int|
                #![trigger connects(g, s, i)]
                #![trigger connects(g, i, e)]
                ns.len() <= i < n.len() implies connects(g, s, i) && connects(g, i, e) by {
                if i < n1.len() {
                    assert(connects(g, s1, i) && connects(g, i, e1));
                    lemma_connects_trans(g, i, e1, e2);
                } else {
                    assert(connects(g, s2, i) && connects(g, i, e2));
                    lemma_connects_trans(g, s1, s2, i);
                }
            }
        },
        Cmd::If(cond, a, b) => {
            let cid = ns.len() as int;
            let n0 = push_node(ns, Block::Condition(cond));
            let (n1, ts, te) = build_spec(n0, *a);
            let (n2, es, ee) = build_spec(n1, *b);
            let after_id = n2.len() as int;
            lemma_build_shape(n0, *a);
            lemma_build_shape(n1, *b);
            lemma_build_connects(g, n0, *a);
            lemma_build_connects(g, n1, *b);
            assert(connects(g, ts, ts) && connects(g, ts, te) && connects(g, te, te));
            assert(connects(g, es, es) && connects(g, es, ee) && connects(g, ee, ee));
            lemma_connects_step(g, cid, ts);
            lemma_connects_step(g, cid, es);
            lemma_connects_step(g, te, after_id);
            lemma_connects_step(g, ee, after_id);
            lemma_connects_refl(g, cid);
            lemma_connects_refl(g, after_id);
            lemma_connects_trans(g, ts, te, after_id);
            lemma_connects_trans(g, cid, ts, after_id);
            assert forall|i: int|
                #![trigger connects(g, s, i)]
                #![trigger connects(g, i, e)]
                ns.len() <= i < n.len() implies connects(g, s, i) && connects(g, i, e) by {
                if i == cid {
                } else if i < n1.len() {
                    assert(connects(g, ts, i) && connects(g, i, te));
                    lemma_connects_trans(g, cid, ts, i);
                    lemma_connects_trans(g, i, te, after_id);
                } else if i < n2.len() {
                    assert(connects(g, es, i) && connects(g, i, ee));
                    lemma_connects_trans(g, cid, es, i);
                    lemma_connects_trans(g, i, ee, after_id);
                } else {
                    assert(i == after_id);
                }
            }
        },
        Cmd::While(cond, body) => {
            let cid = ns.len() as int;
            let n0 = push_node(ns, Block::Condition(cond));
            let (n1, bs, be) = build_spec(n0, *body);
            let after_id = n1.len() as int;
            lemma_build_shape(n0, *body);
            lemma_build_connects(g, n0, *body);
            assert(connects(g, bs, bs) && connects(g, bs, be) && connects(g, be, be));
            lemma_connects_step(g, cid, bs);
            lemma_connects_step(g, cid, after_id);
            lemma_connects_step(g, be, cid);
            lemma_connects_refl(g, cid);
            lemma_connects_refl(g, after_id);
            lemma_connects_trans(g, be, cid, after_id);
            assert forall|i: int|
                #![trigger connects(g, s, i)]
                #![trigger connects(g, i, e)]
                ns.len() <= i < n.len() implies connects(g, s, i) && connects(g, i, e) by {
                if i == cid {
                } else if i < n1.len() {
                    assert(connects(g, bs, i) && connects(g, i, be));
                    lemma_connects_trans(g, cid, bs, i);
                    lemma_connects_trans(g, i, be, after_id);
                } else {
                    assert(i == after_id);
                }
            }
        },
    }
}

/// Every node of the control-flow graph of a program lies on a path from
/// its start node to its exit.
pub proof fn lemma_program_cfg_connected(p: Program)
    requires
        cmd_nodes(p.body) <= usize::MAX,
    ensures
        forall|k: int|
            #![trigger connects(program_cfg(p).nodes, program_cfg(p).start as int, k)]
            #![trigger connects(program_cfg(p).nodes, k, program_cfg(p).end as int)]
            0 <= k < program_cfg(p).nodes.len() ==>
            connects(program_cfg(p).nodes, program_cfg(p).start as int, k)
            && connects(program_cfg(p).nodes, k, program_cfg(p).end as int),
{
    let empty = Seq::<Node>::empty();
    lemma_build_shape(empty, p.body);
    let (n, s, e) = build_spec(empty, p.body);
    assert(holds_build(n, empty, p.body));
    lemma_build_connects(n, empty, p.body);
    let g = program_cfg(p);
    assert(g.nodes == n && g.start as int == s && g.end as int == e);
    assert forall|k: int|
        #![trigger connects(g.nodes, g.start as int, k)]
        #![trigger connects(g.nodes, k, g.end as int)]
        0 <= k < g.nodes.len() implies connects(g.nodes, g.start as int, k) && connects(g.nodes, k, g.end as int) by {
        assert(0 <= k < n.len());
    }
}

// ---------------------------------------------------------------------------
// The least solutions hold exactly what the paths give

proof fn lemma_path_push(g: CfgModel, ps: Seq<int>, k: int)
    requires
        is_path(g, ps),
        0 <= k < g.nodes.len(),
        edge_has(g.nodes[ps.last()].edge, k),
    ensures
        is_path(g, ps.push(k)),
        ps.push(k).drop_last() == ps,
{
    let q = ps.push(k);
    assert forall|i: int| 0 <= i < q.len() implies 0 <= #[trigger] q[i] < g.nodes.len() by {
        if i < ps.len() {
            assert(q[i] == ps[i]);
        }
    }
    assert forall|i: int| 0 <= i < q.len() - 1 implies edge_has(g.nodes[#[trigger] q[i]].edge, q[i + 1]) by {
        if i < ps.len() - 1 {
            assert(q[i] == ps[i] && q[i + 1] == ps[i + 1]);
        }
    }
    assert(q.drop_last() =~= ps);
}

proof fn lemma_path_prepend(g: CfgModel, k: int, ps: Seq<int>)
    requires
        is_path(g, ps),
        0 <= k < g.nodes.len(),
        edge_has(g.nodes[k].edge, ps[0]),
    ensures
        is_path(g, seq![k] + ps),
        (seq![k] + ps).drop_first() == ps,
{
    let q = seq![k] + ps;
    assert forall|i: int| 0 <= i < q.len() implies 0 <= #[trigger] q[i] < g.nodes.len() by {
        if i > 0 {
            assert(q[i] == ps[i - 1]);
        }
    }
    assert forall|i: int| 0 <= i < q.len() - 1 implies edge_has(g.nodes[#[trigger] q[i]].edge, q[i + 1]) by {
        if i > 0 {
            assert(q[i] == ps[i - 1] && q[i + 1] == ps[i]);
        }
    }
    assert(q.drop_first() =~= ps);
}

/// `ps` is a path from the start node to node `k` along which `d` is the
/// last definition of its variable before `k`.
pub open spec fn reaches_along(g: CfgModel, ps: Seq<int>, k: int, d: (Seq<char>, DefinitionPlace)) -> bool {
    is_start_path(g, ps) && ps.last() == k && last_def(g, ps, d.0) == Some(d.1)
}

/// The definitions that reach node `k` along some path from the start node.
pub open spec fn path_reaching_in(g: CfgModel) -> Seq<Set<(Seq<char>, DefinitionPlace)>> {
    Seq::new(
        g.nodes.len(),
        |k: int| Set::new(|d: (Seq<char>, DefinitionPlace)| exists|ps: Seq<int>| #[trigger] reaches_along(g, ps, k, d)),
    )
}

/// The definitions that leave each node, given those that reach it along
/// paths.
pub open spec fn path_reaching_out(g: CfgModel) -> Seq<Set<(Seq<char>, DefinitionPlace)>> {
    Seq::new(g.nodes.len(), |k: int| reach_out(g, k, path_reaching_in(g)[k]))
}

/// When every node can be reached from the start node, the definitions
/// that reach along paths solve the reaching-definitions equations.
proof fn lemma_path_reaching_solves(g: CfgModel)
    requires
        g.wf(),
        forall|j: int| 0 <= j < g.nodes.len() ==> #[trigger] connects(g.nodes, g.start as int, j),
    ensures
        is_solution(reach_rule_in(g), reach_rule_out(g), g.nodes.len(), path_reaching_in(g), path_reaching_out(g)),
{
    reveal(connects);
    let n = g.nodes.len();
    let ins = path_reaching_in(g);
    let outs = path_reaching_out(g);
    assert forall|k: int| 0 <= k < n implies #[trigger] ins[k] == reach_in(g, k, outs) by {
        assert forall|d: (Seq<char>, DefinitionPlace)| ins[k].contains(d) implies reach_in(g, k, outs).contains(d) by {
            let ps = choose|ps: Seq<int>| #[trigger] reaches_along(g, ps, k, d);
            if ps.len() > 1 {
                lemma_path_drop_last(g, ps);
                let p = ps[ps.len() - 2];
                let q = ps.drop_last();
                assert(q.last() == p && q[0] == g.start as int);
                if assigned(g.nodes[p].block) != Some(d.0) {
                    assert(reaches_along(g, q, p, d));
                    assert(ins[p].contains(d));
                }
                assert(outs[p].contains(d));
                assert(is_pred(g.nodes, p, k) && outs[p].contains(d));
            }
        }
        assert forall|d: (Seq<char>, DefinitionPlace)| reach_in(g, k, outs).contains(d) implies ins[k].contains(d) by {
            if k == g.start as int && d == (g.input_var, DefinitionPlace::Input) {
                let ps = seq![k];
                assert(is_path(g, ps));
                assert(reaches_along(g, ps, k, d));
            } else {
                let p = choose|p: int| #[trigger] is_pred(g.nodes, p, k) && outs[p].contains(d);
                assert(is_pred(g.nodes, p, k) && outs[p].contains(d));
                let q = if ins[p].contains(d) && assigned(g.nodes[p].block) != Some(d.0) {
                    choose|ps: Seq<int>| #[trigger] reaches_along(g, ps, p, d)
                } else {
                    assert(connects(g.nodes, g.start as int, p));
                    let w = choose|ps: Seq<int>| node_path(g.nodes, ps) && ps[0] == g.start as int && ps.last() == p;
                    assert(is_path(g, w));
                    w
                };
                assert(is_start_path(g, q) && q.last() == p);
                lemma_path_push(g, q, k);
                let ps = q.push(k);
                assert(ps[ps.len() - 2] == p);
                assert(reaches_along(g, ps, k, d));
            }
        }
        assert(ins[k] =~= reach_in(g, k, outs));
    }
    assert forall|k: int| 0 <= k < n implies #[trigger] outs[k] == reach_out(g, k, ins[k]) by {}
}

/// The least solution of the reaching-definitions equations of a graph
/// whose nodes can all be reached from the start node holds exactly the
/// definitions that reach along paths: a definition is in the entry set of
/// node `k` if and only if some path from the start node to `k` has it as
/// the last definition of its variable before `k` (the input, when no node
/// before `k` assigns the input variable).
pub proof fn lemma_reaching_exactly(g: CfgModel, k: int, d: (Seq<char>, DefinitionPlace))
    requires
        g.wf(),
        forall|j: int| 0 <= j < g.nodes.len() ==> #[trigger] connects(g.nodes, g.start as int, j),
        0 <= k < g.nodes.len(),
    ensures
        least_solution(reach_rule_in(g), reach_rule_out(g), g.nodes.len()).0[k].contains(d)
            <==> exists|ps: Seq<int>| #[trigger] reaches_along(g, ps, k, d),
{
    let n = g.nodes.len();
    lemma_reach_rules(g);
    lemma_least_solution_exists(reach_rule_in(g), reach_rule_out(g), n, reach_universe(g));
    let (ins, outs) = least_solution(reach_rule_in(g), reach_rule_out(g), n);
    lemma_path_reaching_solves(g);
    assert(is_solution(reach_rule_in(g), reach_rule_out(g), n, path_reaching_in(g), path_reaching_out(g)));
    assert(le(ins, path_reaching_in(g)));
    assert(ins[k].subset_of(path_reaching_in(g)[k]));
    if exists|ps: Seq<int>| #[trigger] reaches_along(g, ps, k, d) {
        let ps = choose|ps: Seq<int>| #[trigger] reaches_along(g, ps, k, d);
        lemma_reaching_along_paths(g, ins, outs, ps, d.0);
    }
}

/// `ps` is a path from its first node along which no node but the last
/// assigns `x`, and the last node reads `x` or is the exit with `x` the
/// output variable, which it does not assign.
pub open spec fn live_along(g: CfgModel, ps: Seq<int>, x: Seq<char>) -> bool {
    &&& is_path(g, ps)
    &&& forall|i: int| 0 <= i < ps.len() - 1 ==> assigned(g.nodes[#[trigger] ps[i]].block) != Some(x)
    &&& block_uses(g.nodes[ps.last()].block).contains(x) || (ps.last() == g.end as int && x == g.output_var
        && assigned(g.nodes[ps.last()].block) != Some(x))
}

/// The variables that some path from each node reads before assigning
/// them (or ends at the exit with the output variable unassigned).
pub open spec fn path_live_in(g: CfgModel) -> Seq<Set<Seq<char>>> {
    Seq::new(
        g.nodes.len(),
        |k: int| Set::new(|x: Seq<char>| exists|ps: Seq<int>| #[trigger] live_along(g, ps, x) && ps[0] == k),
    )
}

/// The variables live on exit from each node, given those live on entry
/// along paths.
pub open spec fn path_live_out(g: CfgModel) -> Seq<Set<Seq<char>>> {
    Seq::new(g.nodes.len(), |k: int| live_out(g, k, path_live_in(g)))
}

/// The variables live along paths solve the live-variables equations.
proof fn lemma_path_live_solves(g: CfgModel)
    requires
        g.wf(),
    ensures
        is_solution(live_rule_out(g), live_rule_in(g), g.nodes.len(), path_live_out(g), path_live_in(g)),
{
    let n = g.nodes.len();
    let ins = path_live_in(g);
    let outs = path_live_out(g);
    assert forall|k: int| 0 <= k < n implies #[trigger] ins[k] == live_in(g, k, outs[k]) by {
        assert forall|x: Seq<char>| ins[k].contains(x) implies live_in(g, k, outs[k]).contains(x) by {
            let ps = choose|ps: Seq<int>| #[trigger] live_along(g, ps, x) && ps[0] == k;
            if ps.len() > 1 {
                lemma_path_drop_first(g, ps);
                let q = ps.drop_first();
                let t = ps[1];
                assert(q[0] == t && q.last() == ps.last());
                assert forall|i: int| 0 <= i < q.len() - 1 implies assigned(g.nodes[#[trigger] q[i]].block) != Some(x) by {
                    assert(q[i] == ps[i + 1]);
                }
                assert(live_along(g, q, x));
                assert(ins[t].contains(x));
                assert(assigned(g.nodes[ps[0]].block) != Some(x));
                assert(g.nodes[k].id == k && edge_in(g.nodes[k].edge, n as int));
                assert(outs[k].contains(x));
            }
        }
        assert forall|x: Seq<char>| live_in(g, k, outs[k]).contains(x) implies ins[k].contains(x) by {
            assert(g.nodes[k].id == k && edge_in(g.nodes[k].edge, n as int));
            if block_uses(g.nodes[k].block).contains(x) {
                let ps = seq![k];
                assert(is_path(g, ps));
                assert(live_along(g, ps, x) && ps[0] == k);
            } else if k == g.end as int && x == g.output_var && assigned(g.nodes[k].block) != Some(x) {
                let ps = seq![k];
                assert(is_path(g, ps));
                assert(live_along(g, ps, x) && ps[0] == k);
            } else {
                assert(assigned(g.nodes[k].block) != Some(x));
                let t = match g.nodes[k].edge {
                    Edge::Next(t) => t as int,
                    Edge::If { true_branch, false_branch } => if ins[true_branch as int].contains(x) {
                        true_branch as int
                    } else {
                        false_branch as int
                    },
                    Edge::End => 0,
                };
                assert(ins[t].contains(x) && edge_has(g.nodes[k].edge, t));
                let q = choose|ps: Seq<int>| #[trigger] live_along(g, ps, x) && ps[0] == t;
                lemma_path_prepend(g, k, q);
                let ps = seq![k] + q;
                assert forall|i: int| 0 <= i < ps.len() - 1 implies assigned(g.nodes[#[trigger] ps[i]].block) != Some(x) by {
                    if i > 0 {
                        assert(ps[i] == q[i - 1]);
                    }
                }
                assert(ps.last() == q.last());
                assert(live_along(g, ps, x) && ps[0] == k);
            }
        }
        assert(ins[k] =~= live_in(g, k, outs[k]));
    }
    assert forall|k: int| 0 <= k < n implies #[trigger] outs[k] == live_out(g, k, ins) by {}
}

/// The least solution of the live-variables equations holds exactly the
/// variables live along paths: `x` is in the entry set of node `k` if and
/// only if some path from `k` reads `x` before any node of it assigns `x`,
/// or reaches the exit with `x` the output variable and no node of it
/// assigning `x`.
pub proof fn lemma_live_exactly(g: CfgModel, k: int, x: Seq<char>)
    requires
        g.wf(),
        0 <= k < g.nodes.len(),
    ensures
        least_solution(live_rule_out(g), live_rule_in(g), g.nodes.len()).1[k].contains(x)
            <==> exists|ps: Seq<int>| #[trigger] live_along(g, ps, x) && ps[0] == k,
{
    let n = g.nodes.len();
    lemma_live_rules(g);
    lemma_least_solution_exists(live_rule_out(g), live_rule_in(g), n, live_universe(g));
    let (outs, ins) = least_solution(live_rule_out(g), live_rule_in(g), n);
    lemma_path_live_solves(g);
    assert(is_solution(live_rule_out(g), live_rule_in(g), n, path_live_out(g), path_live_in(g)));
    assert(le(ins, path_live_in(g)));
    assert(ins[k].subset_of(path_live_in(g)[k]));
    if exists|ps: Seq<int>| #[trigger] live_along(g, ps, x) && ps[0] == k {
        let ps = choose|ps: Seq<int>| #[trigger] live_along(g, ps, x) && ps[0] == k;
        lemma_live_along_paths(g, outs, ins, ps, x);
    }
}

/// Along path `ps`, `x` is the input variable or some node before the last
/// assigns it.
pub open spec fn defined_before(g: CfgModel, ps: Seq<int>, x: Seq<char>) -> bool {
    x == g.input_var || exists|i: int| 0 <= i < ps.len() - 1 && assigned(g.nodes[#[trigger] ps[i]].block) == Some(x)
}

/// `x` is defined before node `k` on every path from the start node to `k`.
pub open spec fn defined_on_paths(g: CfgModel, k: int, x: Seq<char>) -> bool {
    forall|ps: Seq<int>| #[trigger] is_start_path(g, ps) && ps.last() == k ==> defined_before(g, ps, x)
}

/// The variables of the universe defined on every path to each node.
pub open spec fn path_defined_in(g: CfgModel) -> Seq<Set<Seq<char>>> {
    Seq::new(
        g.nodes.len(),
        |k: int| Set::new(|x: Seq<char>| defined_universe(g).contains(x) && defined_on_paths(g, k, x)),
    )
}

/// The variables defined on exit from each node, given those defined on
/// every path to it.
pub open spec fn path_defined_out(g: CfgModel) -> Seq<Set<Seq<char>>> {
    Seq::new(g.nodes.len(), |k: int| defined_out(g, k, path_defined_in(g)[k]))
}

/// When every node can be reached from the start node, the variables
/// defined on every path solve the defined-variables equations, within the
/// universe.
proof fn lemma_path_defined_solves(g: CfgModel)
    requires
        g.wf(),
        forall|j: int| 0 <= j < g.nodes.len() ==> #[trigger] connects(g.nodes, g.start as int, j),
    ensures
        is_solution(defined_rule_in(g), defined_rule_out(g), g.nodes.len(), path_defined_in(g), path_defined_out(g)),
        within(path_defined_in(g), defined_universe(g)),
        within(path_defined_out(g), defined_universe(g)),
{
    reveal(connects);
    let n = g.nodes.len();
    let u = defined_universe(g);
    let ins = path_defined_in(g);
    let outs = path_defined_out(g);
    lemma_assigned_names(g.nodes);
    assert forall|k: int| 0 <= k < n implies (#[trigger] outs[k]).subset_of(u) && ins[k].subset_of(u) by {
        if let Some(x) = assigned(g.nodes[k].block) {
            assert(u.contains(x));
        }
    }
    assert forall|k: int| 0 <= k < n implies #[trigger] ins[k] == defined_in(g, k, outs) by {
        if k == g.start as int {
            assert forall|x: Seq<char>| ins[k].contains(x) == defined_in(g, k, outs).contains(x) by {
                if ins[k].contains(x) {
                    let ps = seq![k];
                    assert(is_start_path(g, ps) && ps.last() == k);
                    assert(defined_before(g, ps, x));
                }
                if x == g.input_var {
                    assert forall|ps: Seq<int>| #[trigger] is_start_path(g, ps) && ps.last() == k implies defined_before(g, ps, x) by {}
                }
            }
            assert(ins[k] =~= defined_in(g, k, outs));
        } else {
            assert(connects(g.nodes, g.start as int, k));
            let w = choose|ps: Seq<int>| node_path(g.nodes, ps) && ps[0] == g.start as int && ps.last() == k;
            assert(is_path(g, w));
            assert(w.len() > 1);
            lemma_path_drop_last(g, w);
            let p0 = w[w.len() - 2];
            assert(is_pred(g.nodes, p0, k));
            assert forall|x: Seq<char>| ins[k].contains(x) implies defined_in(g, k, outs).contains(x) by {
                assert forall|p: int| #[trigger] is_pred(g.nodes, p, k) implies outs[p].contains(x) by {
                    if assigned(g.nodes[p].block) != Some(x) {
                        assert forall|q: Seq<int>| #[trigger] is_start_path(g, q) && q.last() == p implies defined_before(g, q, x) by {
                            lemma_path_push(g, q, k);
                            let ps = q.push(k);
                            assert(is_start_path(g, ps) && ps.last() == k);
                            assert(defined_before(g, ps, x));
                            if x != g.input_var {
                                let i = choose|i: int| 0 <= i < ps.len() - 1 && assigned(g.nodes[#[trigger] ps[i]].block) == Some(x);
                                assert(ps[i] == q[i]);
                                assert(i != q.len() - 1);
                            }
                        }
                        assert(ins[p].contains(x));
                    }
                }
            }
            assert forall|x: Seq<char>| defined_in(g, k, outs).contains(x) implies ins[k].contains(x) by {
                assert(outs[p0].contains(x));
                assert(outs[p0].subset_of(u));
                assert forall|ps: Seq<int>| #[trigger] is_start_path(g, ps) && ps.last() == k implies defined_before(g, ps, x) by {
                    assert(ps.len() > 1);
                    lemma_path_drop_last(g, ps);
                    let p = ps[ps.len() - 2];
                    let q = ps.drop_last();
                    assert(outs[p].contains(x));
                    if assigned(g.nodes[p].block) == Some(x) {
                        assert(assigned(g.nodes[ps[ps.len() - 2]].block) == Some(x));
                    } else {
                        assert(ins[p].contains(x));
                        assert(is_start_path(g, q) && q.last() == p);
                        assert(defined_before(g, q, x));
                        if x != g.input_var {
                            let i = choose|i: int| 0 <= i < q.len() - 1 && assigned(g.nodes[#[trigger] q[i]].block) == Some(x);
                            assert(ps[i] == q[i]);
                        }
                    }
                }
            }
            assert(ins[k] =~= defined_in(g, k, outs));
        }
    }
    assert forall|k: int| 0 <= k < n implies #[trigger] outs[k] == defined_out(g, k, ins[k]) by {}
}

/// The defined-variables analysis holds exactly the variables defined on
/// every path, where every node can be reached from the start node: `x` is
/// in the entry set of node `k` if and only if on every path from the start
/// node to `k`, `x` is the input variable or some node before `k` assigns
/// it.
pub proof fn lemma_defined_exactly(g: CfgModel, k: int, x: Seq<char>)
    requires
        g.wf(),
        forall|j: int| 0 <= j < g.nodes.len() ==> #[trigger] connects(g.nodes, g.start as int, j),
        0 <= k < g.nodes.len(),
    ensures
        defined_solution(g).0[k].contains(x) <==> defined_on_paths(g, k, x),
{
    let n = g.nodes.len();
    let u = defined_universe(g);
    lemma_defined_solution(g);
    let (ins, outs) = defined_solution(g);
    if ins[k].contains(x) {
        assert forall|ps: Seq<int>| #[trigger] is_start_path(g, ps) && ps.last() == k implies defined_before(g, ps, x) by {
            lemma_defined_on_every_path(g, ins, outs, ps, x);
        }
    }
    if defined_on_paths(g, k, x) {
        lemma_path_defined_solves(g);
        assert(le(path_defined_in(g), ins));
        reveal(connects);
        assert(connects(g.nodes, g.start as int, k));
        let w = choose|ps: Seq<int>| node_path(g.nodes, ps) && ps[0] == g.start as int && ps.last() == k;
        assert(is_start_path(g, w) && w.last() == k);
        assert(defined_before(g, w, x));
        lemma_assigned_names(g.nodes);
        if x != g.input_var {
            let i = choose|i: int| 0 <= i < w.len() - 1 && assigned(g.nodes[#[trigger] w[i]].block) == Some(x);
            assert(0 <= w[i] < n);
        }
        assert(u.contains(x));
        assert(path_defined_in(g)[k].contains(x));
        assert(path_defined_in(g)[k].subset_of(ins[k]));
    }
}

/// In the graph of a program the reaching definitions, the live variables
/// and the defined variables that the analyses compute are exactly those
/// that the paths give (every node of the graph can be reached from its
/// start node).
pub proof fn lemma_program_analyses_exact(p: Program, k: int, d: (Seq<char>, DefinitionPlace), x: Seq<char>)
    requires
        cmd_nodes(p.body) <= usize::MAX,
        0 <= k < program_cfg(p).nodes.len(),
    ensures
        least_solution(reach_rule_in(program_cfg(p)), reach_rule_out(program_cfg(p)), program_cfg(p).nodes.len()).0[k].contains(d)
            <==> exists|ps: Seq<int>| #[trigger] reaches_along(program_cfg(p), ps, k, d),
        least_solution(live_rule_out(program_cfg(p)), live_rule_in(program_cfg(p)), program_cfg(p).nodes.len()).1[k].contains(x)
            <==> exists|ps: Seq<int>| #[trigger] live_along(program_cfg(p), ps, x) && ps[0] == k,
        defined_solution(program_cfg(p)).0[k].contains(x) <==> defined_on_paths(program_cfg(p), k, x),
{
    let g = program_cfg(p);
    lemma_program_cfg_wf(p);
    lemma_program_cfg_connected(p);
    assert forall|j: int| 0 <= j < g.nodes.len() implies #[trigger] connects(g.nodes, g.start as int, j) by {}
    lemma_reaching_exactly(g, k, d);
    lemma_live_exactly(g, k, x);
    lemma_defined_exactly(g, k, x);
}

} // verus!
