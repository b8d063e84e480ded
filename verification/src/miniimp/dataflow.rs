//! Dataflow analyses on MiniImp control-flow graphs: defined variables,
//! live variables and reaching definitions.
//!
//! Each analysis gives every node an entry set and an exit set. Live
//! variables and reaching definitions are the least solutions of their
//! equations, reached by round-robin iteration from empty sets; defined
//! variables are the greatest solution of theirs within the input variable
//! and the assigned ones, reached by round-robin iteration downwards from
//! all those variables.
use vstd::prelude::*;
use crate::miniimp::ast::{BoolExpr, Expr};
use crate::miniimp::cfg::{Block, Cfg, CfgModel, Edge, Node, edge_in};
use crate::miniimp::fixpoint::{
    Rule, le, within, is_least_solution, monotone, bounded, slack, empties, between_passes, in_pass,
    lemma_begin, lemma_pass_begin, lemma_pass_step, lemma_pass_end, lemma_slack_nonneg, is_solution,
    is_greatest_solution_within, greatest_solution_within, lemma_greatest_solution_unique, least_solution,
    lemma_least_solution_exists,
};
use crate::miniimp::sets::{NameSet, DefinitionSet, Definition, DefinitionPlace};

verus! {

/// A node's entry and exit sets of variables.
#[derive(Debug, Clone)]
pub struct VariableAnnotation {
    pub in_set: NameSet,
    pub out_set: NameSet,
}

/// A node with its sets of variables.
#[derive(Debug, Clone)]
pub struct VariableAnnotatedNode {
    pub id: usize,
    pub block: Block,
    pub edge: Edge,
    pub annotation: VariableAnnotation,
}

/// A control-flow graph with sets of variables at each node.
#[derive(Debug, Clone)]
pub struct VariableAnnotatedCfg {
    pub nodes: Vec<VariableAnnotatedNode>,
    pub start: usize,
    pub end: usize,
}

/// A node's entry and exit sets of definitions.
#[derive(Debug, Clone)]
pub struct ReachingAnnotation {
    pub in_set: DefinitionSet,
    pub out_set: DefinitionSet,
}

/// A node with its sets of definitions.
#[derive(Debug, Clone)]
pub struct ReachingAnnotatedNode {
    pub id: usize,
    pub block: Block,
    pub edge: Edge,
    pub annotation: ReachingAnnotation,
}

/// A control-flow graph with sets of definitions at each node.
#[derive(Debug, Clone)]
pub struct ReachingAnnotatedCfg {
    pub nodes: Vec<ReachingAnnotatedNode>,
    pub start: usize,
    pub end: usize,
}

/// Does the edge lead to node `k`?
pub open spec fn edge_has(e: Edge, k: int) -> bool {
    match e {
        Edge::End => false,
        Edge::Next(t) => t == k,
        Edge::If { true_branch, false_branch } => true_branch == k || false_branch == k,
    }
}

/// Is node `p` a predecessor of node `k`?
pub open spec fn is_pred(ns: Seq<Node>, p: int, k: int) -> bool {
    0 <= p < ns.len() && edge_has(ns[p].edge, k)
}

/// The variable that a block assigns, if any.
pub open spec fn assigned(b: Block) -> Option<Seq<char>> {
    match b {
        Block::Assignment(x, _) => Some(x@),
        _ => None,
    }
}

/// The variables that an arithmetic expression reads.
pub open spec fn expr_vars(e: Expr) -> Set<Seq<char>>
    decreases e,
{
    match e {
        Expr::Var(x) => set![x@],
        Expr::Int(_) => Set::empty(),
        Expr::Add(a, b) | Expr::Sub(a, b) | Expr::Mul(a, b) => expr_vars(*a).union(expr_vars(*b)),
    }
}

/// The variables that a boolean expression reads.
pub open spec fn bool_vars(e: BoolExpr) -> Set<Seq<char>>
    decreases e,
{
    match e {
        BoolExpr::True | BoolExpr::False => Set::empty(),
        BoolExpr::Less(a, b) => expr_vars(*a).union(expr_vars(*b)),
        BoolExpr::And(a, b) => bool_vars(*a).union(bool_vars(*b)),
        BoolExpr::Not(a) => bool_vars(*a),
    }
}

/// The variables that a block reads.
pub open spec fn block_uses(b: Block) -> Set<Seq<char>> {
    match b {
        Block::Skip => Set::empty(),
        Block::Assignment(_, e) => expr_vars(e),
        Block::Condition(c) => bool_vars(c),
    }
}

/// The sets of a list taken by view.
pub open spec fn name_sets(v: Seq<NameSet>) -> Seq<Set<Seq<char>>> {
    v.map_values(|s: NameSet| s@)
}

/// The sets of a list taken by view.
pub open spec fn definition_sets(v: Seq<DefinitionSet>) -> Seq<Set<(Seq<char>, DefinitionPlace)>> {
    v.map_values(|s: DefinitionSet| s@)
}

/// The entry sets of an annotated graph.
pub open spec fn variable_ins(r: VariableAnnotatedCfg) -> Seq<Set<Seq<char>>> {
    r.nodes@.map_values(|n: VariableAnnotatedNode| n.annotation.in_set@)
}

/// The exit sets of an annotated graph.
pub open spec fn variable_outs(r: VariableAnnotatedCfg) -> Seq<Set<Seq<char>>> {
    r.nodes@.map_values(|n: VariableAnnotatedNode| n.annotation.out_set@)
}

/// The entry sets of an annotated graph.
pub open spec fn reaching_ins(r: ReachingAnnotatedCfg) -> Seq<Set<(Seq<char>, DefinitionPlace)>> {
    r.nodes@.map_values(|n: ReachingAnnotatedNode| n.annotation.in_set@)
}

/// The exit sets of an annotated graph.
pub open spec fn reaching_outs(r: ReachingAnnotatedCfg) -> Seq<Set<(Seq<char>, DefinitionPlace)>> {
    r.nodes@.map_values(|n: ReachingAnnotatedNode| n.annotation.out_set@)
}

/// The nodes of the annotated graph are those of `cfg`, in order.
pub open spec fn same_shape_variable(r: VariableAnnotatedCfg, cfg: CfgModel) -> bool {
    &&& r.nodes@.len() == cfg.nodes.len()
    &&& r.start == cfg.start
    &&& r.end == cfg.end
    &&& forall|k: int| 0 <= k < r.nodes@.len() ==> (#[trigger] r.nodes@[k]).id == cfg.nodes[k].id
        && r.nodes@[k].block == cfg.nodes[k].block && r.nodes@[k].edge == cfg.nodes[k].edge
}

/// The nodes of the annotated graph are those of `cfg`, in order.
pub open spec fn same_shape_reaching(r: ReachingAnnotatedCfg, cfg: CfgModel) -> bool {
    &&& r.nodes@.len() == cfg.nodes.len()
    &&& r.start == cfg.start
    &&& r.end == cfg.end
    &&& forall|k: int| 0 <= k < r.nodes@.len() ==> (#[trigger] r.nodes@[k]).id == cfg.nodes[k].id
        && r.nodes@[k].block == cfg.nodes[k].block && r.nodes@[k].edge == cfg.nodes[k].edge
}

// ---------------------------------------------------------------------------
// Helpers

/// The nodes that an edge leads to, in order.
pub open spec fn succ_seq(e: Edge) -> Seq<usize> {
    match e {
        Edge::End => seq![],
        Edge::Next(t) => seq![t],
        Edge::If { true_branch, false_branch } => seq![true_branch, false_branch],
    }
}

/// The nodes that an edge leads to.
fn successors(edge: &Edge) -> (r: Vec<usize>)
    ensures
        r@ == succ_seq(*edge),
{
    match edge {
        Edge::End => Vec::new(),
        Edge::Next(node) => {
            let mut v = Vec::new();
            v.push(*node);
            assert(v@ =~= seq![*node]);
            v
        },
        Edge::If { true_branch, false_branch } => {
            let mut v = Vec::new();
            v.push(*true_branch);
            v.push(*false_branch);
            assert(v@ =~= seq![*true_branch, *false_branch]);
            v
        },
    }
}

/// Does the edge lead to node `k`?
fn edge_leads_to(edge: &Edge, k: usize) -> (r: bool)
    ensures
        r == edge_has(*edge, k as int),
{
    match edge {
        Edge::End => false,
        Edge::Next(t) => *t == k,
        Edge::If { true_branch, false_branch } => *true_branch == k || *false_branch == k,
    }
}

/// Lists of predecessors: `preds[k]` holds exactly the predecessors of `k`.
pub open spec fn preds_ok(ns: Seq<Node>, preds: Seq<Vec<usize>>) -> bool {
    &&& preds.len() == ns.len()
    &&& forall|k: int, p: usize| 0 <= k < preds.len() ==> (#[trigger] preds[k]@.contains(p) <==> is_pred(
        ns,
        p as int,
        k,
    ))
    &&& forall|k: int, i: int| 0 <= k < preds.len() && 0 <= i < preds[k]@.len() ==> #[trigger] preds[k]@[i]
        < ns.len()
}

/// The predecessors of every node, by index.
fn predecessors(cfg: &Cfg) -> (r: Vec<Vec<usize>>)
    ensures
        preds_ok(cfg.nodes@, r@),
{
    let n = cfg.nodes.len();
    let mut result: Vec<Vec<usize>> = Vec::new();
    let mut k: usize = 0;
    while k < n
        invariant
            n == cfg.nodes@.len(),
            k <= n,
            result@.len() == k,
            forall|k2: int, p: usize| 0 <= k2 < k ==> (#[trigger] result@[k2]@.contains(p) <==> is_pred(
                cfg.nodes@,
                p as int,
                k2,
            )),
            forall|k2: int, i: int| 0 <= k2 < k && 0 <= i < result@[k2]@.len() ==> #[trigger] result@[k2]@[i] < n,
        decreases n - k,
    {
        let mut list: Vec<usize> = Vec::new();
        let mut p: usize = 0;
        while p < n
            invariant
                n == cfg.nodes@.len(),
                k < n,
                p <= n,
                forall|q: usize| #[trigger] list@.contains(q) <==> (q < p && is_pred(cfg.nodes@, q as int, k as int)),
                forall|i: int| 0 <= i < list@.len() ==> #[trigger] list@[i] < p,
            decreases n - p,
        {
            let ghost before = list@;
            if edge_leads_to(&cfg.nodes[p].edge, k) {
                list.push(p);
                assert forall|q: usize| #[trigger] list@.contains(q) <==> (q < p + 1 && is_pred(cfg.nodes@, q as int, k as int)) by {
                    if list@.contains(q) {
                        let i = choose|i: int| 0 <= i < list@.len() && list@[i] == q;
                        if i < before.len() {
                            assert(before.contains(q));
                        }
                    }
                    if q < p {
                        if is_pred(cfg.nodes@, q as int, k as int) {
                            assert(before.contains(q));
                            let i = choose|i: int| 0 <= i < before.len() && before[i] == q;
                            assert(list@[i] == q);
                        }
                    }
                    if q == p {
                        assert(list@[before.len() as int] == p);
                    }
                }
            } else {
                assert forall|q: usize| #[trigger] list@.contains(q) <==> (q < p + 1 && is_pred(cfg.nodes@, q as int, k as int)) by {
                    if q == p {
                        if list@.contains(q) {
                            let i = choose|i: int| 0 <= i < list@.len() && list@[i] == q;
                        }
                    }
                }
            }
            p = p + 1;
        }
        result.push(list);
        k = k + 1;
    }
    result
}

/// The set of variables that an arithmetic expression reads.
fn vars_in_expr(expr: &Expr) -> (r: NameSet)
    ensures
        r@ == expr_vars(*expr),
    decreases expr,
{
    match expr {
        Expr::Var(name) => {
            let mut vars = NameSet::new();
            vars.insert(name.clone());
            assert(vars@ =~= set![name@]);
            vars
        },
        Expr::Int(_) => NameSet::new(),
        Expr::Add(left, right) | Expr::Sub(left, right) | Expr::Mul(left, right) => {
            let mut vars = vars_in_expr(left);
            vars.union_with(&vars_in_expr(right));
            vars
        },
    }
}

/// The set of variables that a boolean expression reads.
fn vars_in_bool(expr: &BoolExpr) -> (r: NameSet)
    ensures
        r@ == bool_vars(*expr),
    decreases expr,
{
    match expr {
        BoolExpr::True | BoolExpr::False => NameSet::new(),
        BoolExpr::Less(left, right) => {
            let mut vars = vars_in_expr(left);
            vars.union_with(&vars_in_expr(right));
            vars
        },
        BoolExpr::And(left, right) => {
            let mut vars = vars_in_bool(left);
            vars.union_with(&vars_in_bool(right));
            vars
        },
        BoolExpr::Not(inner) => vars_in_bool(inner),
    }
}

/// The variable that a block assigns, if any.
fn assigned_variable(block: &Block) -> (r: Option<String>)
    ensures
        match r {
            Some(x) => assigned(*block) == Some(x@),
            None => assigned(*block) is None,
        },
{
    match block {
        Block::Assignment(name, _) => Some(name.clone()),
        _ => None,
    }
}

/// The variables that a block reads.
fn used_variables(block: &Block) -> (r: NameSet)
    ensures
        r@ == block_uses(*block),
{
    match block {
        Block::Skip => NameSet::new(),
        Block::Assignment(_, expr) => vars_in_expr(expr),
        Block::Condition(condition) => vars_in_bool(condition),
    }
}

/// `n` empty sets of names.
fn empty_name_sets(n: usize) -> (r: Vec<NameSet>)
    ensures
        r@.len() == n,
        name_sets(r@) == empties::<Seq<char>>(n as nat),
{
    let mut v: Vec<NameSet> = Vec::new();
    let mut i: usize = 0;
    while i < n
        invariant
            i <= n,
            v@.len() == i,
            forall|j: int| 0 <= j < i ==> (#[trigger] v@[j])@ == Set::<Seq<char>>::empty(),
        decreases n - i,
    {
        v.push(NameSet::new());
        i = i + 1;
    }
    assert(name_sets(v@) =~= empties::<Seq<char>>(n as nat));
    v
}

/// A copy of a list of sets of names.
fn copy_name_sets(v: &Vec<NameSet>) -> (r: Vec<NameSet>)
    ensures
        name_sets(r@) == name_sets(v@),
{
    let mut out: Vec<NameSet> = Vec::new();
    let mut i: usize = 0;
    while i < v.len()
        invariant
            i <= v@.len(),
            out@.len() == i,
            forall|j: int| 0 <= j < i ==> (#[trigger] out@[j])@ == v@[j]@,
        decreases v@.len() - i,
    {
        out.push(v[i].copy());
        i = i + 1;
    }
    assert(name_sets(out@) =~= name_sets(v@));
    out
}

/// Do the two lists hold the same sets?
fn same_name_sets(a: &Vec<NameSet>, b: &Vec<NameSet>) -> (r: bool)
    requires
        a@.len() == b@.len(),
    ensures
        r == (name_sets(a@) == name_sets(b@)),
{
    let mut i: usize = 0;
    while i < a.len()
        invariant
            a@.len() == b@.len(),
            i <= a@.len(),
            forall|j: int| 0 <= j < i ==> (#[trigger] a@[j])@ == b@[j]@,
        decreases a@.len() - i,
    {
        if !a[i].same(&b[i]) {
            assert(name_sets(a@)[i as int] != name_sets(b@)[i as int]);
            return false;
        }
        i = i + 1;
    }
    assert(name_sets(a@) =~= name_sets(b@));
    true
}

/// `n` empty sets of definitions.
fn empty_definition_sets(n: usize) -> (r: Vec<DefinitionSet>)
    ensures
        r@.len() == n,
        definition_sets(r@) == empties::<(Seq<char>, DefinitionPlace)>(n as nat),
{
    let mut v: Vec<DefinitionSet> = Vec::new();
    let mut i: usize = 0;
    while i < n
        invariant
            i <= n,
            v@.len() == i,
            forall|j: int| 0 <= j < i ==> (#[trigger] v@[j])@ == Set::<(Seq<char>, DefinitionPlace)>::empty(),
        decreases n - i,
    {
        v.push(DefinitionSet::new());
        i = i + 1;
    }
    assert(definition_sets(v@) =~= empties::<(Seq<char>, DefinitionPlace)>(n as nat));
    v
}

/// A copy of a list of sets of definitions.
fn copy_definition_sets(v: &Vec<DefinitionSet>) -> (r: Vec<DefinitionSet>)
    ensures
        definition_sets(r@) == definition_sets(v@),
{
    let mut out: Vec<DefinitionSet> = Vec::new();
    let mut i: usize = 0;
    while i < v.len()
        invariant
            i <= v@.len(),
            out@.len() == i,
            forall|j: int| 0 <= j < i ==> (#[trigger] out@[j])@ == v@[j]@,
        decreases v@.len() - i,
    {
        out.push(v[i].copy());
        i = i + 1;
    }
    assert(definition_sets(out@) =~= definition_sets(v@));
    out
}

/// Do the two lists hold the same sets?
fn same_definition_sets(a: &Vec<DefinitionSet>, b: &Vec<DefinitionSet>) -> (r: bool)
    requires
        a@.len() == b@.len(),
    ensures
        r == (definition_sets(a@) == definition_sets(b@)),
{
    let mut i: usize = 0;
    while i < a.len()
        invariant
            a@.len() == b@.len(),
            i <= a@.len(),
            forall|j: int| 0 <= j < i ==> (#[trigger] a@[j])@ == b@[j]@,
        decreases a@.len() - i,
    {
        if !a[i].same(&b[i]) {
            assert(definition_sets(a@)[i as int] != definition_sets(b@)[i as int]);
            return false;
        }
        i = i + 1;
    }
    assert(definition_sets(a@) =~= definition_sets(b@));
    true
}

// ---------------------------------------------------------------------------
// Defined variables

/// The variables surely defined on entry to node `k`, from the exit sets
/// `outs`: the input variable at the start node; elsewhere those defined on
/// exit from every predecessor; none at a node with no predecessor.
pub open spec fn defined_in(cfg: CfgModel, k: int, outs: Seq<Set<Seq<char>>>) -> Set<Seq<char>> {
    if k == cfg.start as int {
        set![cfg.input_var]
    } else if exists|p: int| is_pred(cfg.nodes, p, k) {
        Set::new(|v: Seq<char>| forall|p: int| #[trigger] is_pred(cfg.nodes, p, k) ==> outs[p].contains(v))
    } else {
        Set::empty()
    }
}

/// The variables surely defined on exit from node `k`: those on entry and
/// the one the node assigns.
pub open spec fn defined_out(cfg: CfgModel, k: int, in_k: Set<Seq<char>>) -> Set<Seq<char>> {
    match assigned(cfg.nodes[k].block) {
        Some(x) => in_k.insert(x),
        None => in_k,
    }
}

/// The entry equations of the defined-variables analysis.
pub open spec fn defined_rule_in(cfg: CfgModel) -> Rule<Seq<char>> {
    |k: int, a: Seq<Set<Seq<char>>>, b: Seq<Set<Seq<char>>>| defined_in(cfg, k, b)
}

/// The exit equations of the defined-variables analysis.
pub open spec fn defined_rule_out(cfg: CfgModel) -> Rule<Seq<char>> {
    |k: int, a: Seq<Set<Seq<char>>>, b: Seq<Set<Seq<char>>>| defined_out(cfg, k, a[k])
}

/// The variables that the nodes assign.
pub open spec fn assigned_names(ns: Seq<Node>) -> Set<Seq<char>>
    decreases ns.len(),
{
    if ns.len() == 0 {
        Set::empty()
    } else {
        match assigned(ns.last().block) {
            Some(x) => assigned_names(ns.drop_last()).insert(x),
            None => assigned_names(ns.drop_last()),
        }
    }
}

pub proof fn lemma_assigned_names(ns: Seq<Node>)
    ensures
        assigned_names(ns).finite(),
        forall|k: int| 0 <= k < ns.len() ==> (#[trigger] assigned(ns[k].block) matches Some(x)
            ==> assigned_names(ns).contains(x)),
    decreases ns.len(),
{
    if ns.len() > 0 {
        lemma_assigned_names(ns.drop_last());
        assert forall|k: int| 0 <= k < ns.len() implies (#[trigger] assigned(ns[k].block) matches Some(x)
            ==> assigned_names(ns).contains(x)) by {
            if k < ns.len() - 1 {
                assert(ns[k] == ns.drop_last()[k]);
            }
        }
    }
}

/// Every set that the defined-variables analysis computes lies in this
/// finite set.
pub open spec fn defined_universe(cfg: CfgModel) -> Set<Seq<char>> {
    assigned_names(cfg.nodes).insert(cfg.input_var)
}

// The defined variables are the greatest solution of their equations within
// `defined_universe`. It is computed, and proved, through the complements of
// the sets within that universe: the possibly undefined variables, which
// are the least solution of the dual equations below (a union over the
// predecessors in place of an intersection).

/// The complement of each set within `u`.
pub open spec fn complements(xs: Seq<Set<Seq<char>>>, u: Set<Seq<char>>) -> Seq<Set<Seq<char>>> {
    xs.map_values(|s: Set<Seq<char>>| u.difference(s))
}

/// The variables possibly undefined on entry to node `k`, from the exit
/// sets `mouts`: all but the input variable at the start node; elsewhere
/// those possibly undefined on exit from some predecessor; all at a node
/// with no predecessor.
pub open spec fn undefined_in(cfg: CfgModel, k: int, mouts: Seq<Set<Seq<char>>>) -> Set<Seq<char>> {
    let u = defined_universe(cfg);
    if k == cfg.start as int {
        u.remove(cfg.input_var)
    } else if exists|p: int| is_pred(cfg.nodes, p, k) {
        Set::new(|v: Seq<char>| u.contains(v) && exists|p: int| #[trigger] is_pred(cfg.nodes, p, k) && mouts[p].contains(v))
    } else {
        u
    }
}

/// The variables possibly undefined on exit from node `k`: those on entry
/// but for the one the node assigns.
pub open spec fn undefined_out(cfg: CfgModel, k: int, min_k: Set<Seq<char>>) -> Set<Seq<char>> {
    match assigned(cfg.nodes[k].block) {
        Some(x) => min_k.remove(x),
        None => min_k,
    }
}

/// The entry equations of the possibly-undefined variables.
pub open spec fn undefined_rule_in(cfg: CfgModel) -> Rule<Seq<char>> {
    |k: int, a: Seq<Set<Seq<char>>>, b: Seq<Set<Seq<char>>>| undefined_in(cfg, k, b)
}

/// The exit equations of the possibly-undefined variables.
pub open spec fn undefined_rule_out(cfg: CfgModel) -> Rule<Seq<char>> {
    |k: int, a: Seq<Set<Seq<char>>>, b: Seq<Set<Seq<char>>>| undefined_out(cfg, k, a[k])
}

/// The possibly-undefined equations are monotone and keep the sets within
/// the universe of the defined-variables analysis.
pub proof fn lemma_undefined_rules(cfg: CfgModel)
    ensures
        monotone(undefined_rule_in(cfg), undefined_rule_out(cfg), cfg.nodes.len()),
        bounded(undefined_rule_in(cfg), undefined_rule_out(cfg), cfg.nodes.len(), defined_universe(cfg)),
        defined_universe(cfg).finite(),
{
    let n = cfg.nodes.len();
    let fa = undefined_rule_in(cfg);
    let fb = undefined_rule_out(cfg);
    let u = defined_universe(cfg);
    lemma_assigned_names(cfg.nodes);
    assert forall|k: int, a: Seq<Set<Seq<char>>>, b: Seq<Set<Seq<char>>>, a2: Seq<Set<Seq<char>>>, b2: Seq<Set<Seq<char>>>|
        #![trigger fa(k, a, b), fa(k, a2, b2)]
        #![trigger fb(k, a, b), fb(k, a2, b2)]
        0 <= k < n && a.len() == n && b.len() == n && le(a, a2) && le(b, b2) implies fa(k, a, b).subset_of(
        fa(k, a2, b2),
    ) && fb(k, a, b).subset_of(fb(k, a2, b2)) by {
        assert(a[k].subset_of(a2[k]));
        if k != cfg.start as int && exists|p: int| is_pred(cfg.nodes, p, k) {
            assert forall|v: Seq<char>| #[trigger] fa(k, a, b).contains(v) implies fa(k, a2, b2).contains(v) by {
                let p = choose|p: int| #[trigger] is_pred(cfg.nodes, p, k) && b[p].contains(v);
                assert(b[p].subset_of(b2[p]));
            }
        }
    }
    assert forall|k: int, a: Seq<Set<Seq<char>>>, b: Seq<Set<Seq<char>>>|
        #![trigger fa(k, a, b)]
        #![trigger fb(k, a, b)]
        0 <= k < n && a.len() == n && b.len() == n && within(a, u) && within(b, u) implies fa(k, a, b).subset_of(u)
        && fb(k, a, b).subset_of(u) by {
        assert(a[k].subset_of(u));
    }
}

/// Every solution of the possibly-undefined equations lies within the
/// universe.
proof fn lemma_undefined_solutions_within(cfg: CfgModel, a: Seq<Set<Seq<char>>>, b: Seq<Set<Seq<char>>>)
    requires
        is_solution(undefined_rule_in(cfg), undefined_rule_out(cfg), cfg.nodes.len(), a, b),
    ensures
        within(a, defined_universe(cfg)),
        within(b, defined_universe(cfg)),
{
    let u = defined_universe(cfg);
    assert forall|i: int| 0 <= i < a.len() implies (#[trigger] a[i]).subset_of(u) by {
        assert(a[i] == undefined_in(cfg, i, b));
    }
    assert forall|i: int| 0 <= i < b.len() implies (#[trigger] b[i]).subset_of(u) by {
        assert(a[i] == undefined_in(cfg, i, b));
        assert(b[i] == undefined_out(cfg, i, a[i]));
    }
}

/// Taking complements within `u` twice gives back sets within `u`, and the
/// complements lie within `u`.
pub proof fn lemma_complements_twice(xs: Seq<Set<Seq<char>>>, u: Set<Seq<char>>)
    ensures
        within(complements(xs, u), u),
        complements(xs, u).len() == xs.len(),
        within(xs, u) ==> complements(complements(xs, u), u) == xs,
{
    let c = complements(xs, u);
    assert forall|i: int| 0 <= i < c.len() implies (#[trigger] c[i]).subset_of(u) by {}
    if within(xs, u) {
        assert forall|i: int| 0 <= i < xs.len() implies #[trigger] complements(c, u)[i] == xs[i] by {
            assert(xs[i].subset_of(u));
            assert(complements(c, u)[i] =~= xs[i]);
        }
        assert(complements(c, u) =~= xs);
    }
}

/// At one node the defined-variables equations, on sets within the
/// universe, give sets within it whose complements are what the
/// possibly-undefined equations give on the complements.
pub proof fn lemma_defined_dual_step(cfg: CfgModel, a: Seq<Set<Seq<char>>>, b: Seq<Set<Seq<char>>>, k: int)
    requires
        a.len() == cfg.nodes.len(),
        b.len() == cfg.nodes.len(),
        within(a, defined_universe(cfg)),
        within(b, defined_universe(cfg)),
        0 <= k < cfg.nodes.len(),
    ensures
        defined_in(cfg, k, b).subset_of(defined_universe(cfg)),
        defined_universe(cfg).difference(defined_in(cfg, k, b))
            == undefined_in(cfg, k, complements(b, defined_universe(cfg))),
        defined_out(cfg, k, a[k]).subset_of(defined_universe(cfg)),
        defined_universe(cfg).difference(defined_out(cfg, k, a[k]))
            == undefined_out(cfg, k, defined_universe(cfg).difference(a[k])),
{
    let u = defined_universe(cfg);
    let cb = complements(b, u);
    lemma_assigned_names(cfg.nodes);
    assert(a[k].subset_of(u));
    if k != cfg.start as int && exists|p: int| is_pred(cfg.nodes, p, k) {
        let p0 = choose|p: int| is_pred(cfg.nodes, p, k);
        assert(b[p0].subset_of(u));
        assert forall|v: Seq<char>| #[trigger] defined_in(cfg, k, b).contains(v) implies u.contains(v) by {
            assert(b[p0].contains(v));
        }
        assert forall|v: Seq<char>| #[trigger] u.difference(defined_in(cfg, k, b)).contains(v)
            == undefined_in(cfg, k, cb).contains(v) by {
            if u.contains(v) && !defined_in(cfg, k, b).contains(v) {
                let p = choose|p: int| #[trigger] is_pred(cfg.nodes, p, k) && !b[p].contains(v);
                assert(cb[p].contains(v));
            }
            if undefined_in(cfg, k, cb).contains(v) {
                let p = choose|p: int| #[trigger] is_pred(cfg.nodes, p, k) && cb[p].contains(v);
                assert(!b[p].contains(v));
            }
        }
    }
    assert(u.difference(defined_in(cfg, k, b)) =~= undefined_in(cfg, k, cb));
    assert(u.difference(defined_out(cfg, k, a[k])) =~= undefined_out(cfg, k, u.difference(a[k])));
}

/// Sets within the universe solve the defined-variables equations exactly
/// when their complements solve the possibly-undefined equations.
pub proof fn lemma_defined_duality(cfg: CfgModel, a: Seq<Set<Seq<char>>>, b: Seq<Set<Seq<char>>>)
    requires
        a.len() == cfg.nodes.len(),
        b.len() == cfg.nodes.len(),
        within(a, defined_universe(cfg)),
        within(b, defined_universe(cfg)),
    ensures
        is_solution(defined_rule_in(cfg), defined_rule_out(cfg), cfg.nodes.len(), a, b)
            <==> is_solution(
            undefined_rule_in(cfg),
            undefined_rule_out(cfg),
            cfg.nodes.len(),
            complements(a, defined_universe(cfg)),
            complements(b, defined_universe(cfg)),
        ),
{
    let u = defined_universe(cfg);
    let n = cfg.nodes.len();
    let ca = complements(a, u);
    let cb = complements(b, u);
    let fa = defined_rule_in(cfg);
    let fb = defined_rule_out(cfg);
    let ga = undefined_rule_in(cfg);
    let gb = undefined_rule_out(cfg);
    assert forall|k: int| 0 <= k < n implies
        ((#[trigger] a[k]) == fa(k, a, b) <==> ca[k] == ga(k, ca, cb))
        && (b[k] == fb(k, a, b) <==> cb[k] == gb(k, ca, cb)) by {
        lemma_defined_dual_step(cfg, a, b, k);
        assert(a[k].subset_of(u) && b[k].subset_of(u));
        if ca[k] == ga(k, ca, cb) {
            assert(a[k] =~= fa(k, a, b)) by {
                assert forall|v: Seq<char>| a[k].contains(v) == fa(k, a, b).contains(v) by {
                    assert(ca[k].contains(v) == u.difference(fa(k, a, b)).contains(v));
                }
            }
        }
        if cb[k] == gb(k, ca, cb) {
            assert(b[k] =~= fb(k, a, b)) by {
                assert forall|v: Seq<char>| b[k].contains(v) == fb(k, a, b).contains(v) by {
                    assert(cb[k].contains(v) == u.difference(fb(k, a, b)).contains(v));
                }
            }
        }
    }
    if is_solution(ga, gb, n, ca, cb) {
        assert forall|k: int| #![trigger a[k]] #![trigger b[k]] 0 <= k < n implies a[k] == fa(k, a, b) && b[k] == fb(k, a, b) by {
            assert(ca[k] == ga(k, ca, cb) && cb[k] == gb(k, ca, cb));
        }
    }
    if is_solution(fa, fb, n, a, b) {
        assert forall|k: int| #![trigger ca[k]] #![trigger cb[k]] 0 <= k < n implies ca[k] == ga(k, ca, cb) && cb[k] == gb(k, ca, cb) by {
            assert(a[k] == fa(k, a, b) && b[k] == fb(k, a, b));
        }
    }
}

/// The complements of the least solution of the possibly-undefined
/// equations are the greatest solution of the defined-variables equations
/// within the universe.
pub proof fn lemma_defined_from_undefined(cfg: CfgModel, ma: Seq<Set<Seq<char>>>, mb: Seq<Set<Seq<char>>>)
    requires
        is_least_solution(undefined_rule_in(cfg), undefined_rule_out(cfg), cfg.nodes.len(), ma, mb),
    ensures
        is_greatest_solution_within(
            defined_rule_in(cfg),
            defined_rule_out(cfg),
            cfg.nodes.len(),
            defined_universe(cfg),
            complements(ma, defined_universe(cfg)),
            complements(mb, defined_universe(cfg)),
        ),
{
    let u = defined_universe(cfg);
    let n = cfg.nodes.len();
    let ga = complements(ma, u);
    let gb = complements(mb, u);
    lemma_undefined_solutions_within(cfg, ma, mb);
    lemma_complements_twice(ma, u);
    lemma_complements_twice(mb, u);
    lemma_defined_duality(cfg, ga, gb);
    assert forall|a2: Seq<Set<Seq<char>>>, b2: Seq<Set<Seq<char>>>|
        #[trigger] is_solution(defined_rule_in(cfg), defined_rule_out(cfg), n, a2, b2) && within(a2, u) && within(b2, u)
        implies le(a2, ga) && le(b2, gb) by {
        lemma_defined_duality(cfg, a2, b2);
        let ca = complements(a2, u);
        let cb = complements(b2, u);
        assert(le(ma, ca) && le(mb, cb));
        assert forall|i: int| 0 <= i < a2.len() implies (#[trigger] a2[i]).subset_of(ga[i]) by {
            assert(a2[i].subset_of(u));
            assert(ma[i].subset_of(ca[i]));
        }
        assert forall|i: int| 0 <= i < b2.len() implies (#[trigger] b2[i]).subset_of(gb[i]) by {
            assert(b2[i].subset_of(u));
            assert(mb[i].subset_of(cb[i]));
        }
    }
}

/// The defined variables on entry to and exit from each node: the greatest
/// solution of the defined-variables equations within the universe.
pub open spec fn defined_solution(cfg: CfgModel) -> (Seq<Set<Seq<char>>>, Seq<Set<Seq<char>>>) {
    greatest_solution_within(defined_rule_in(cfg), defined_rule_out(cfg), cfg.nodes.len(), defined_universe(cfg))
}

/// The defined-variables equations have a greatest solution within the
/// universe.
pub proof fn lemma_defined_solution(cfg: CfgModel)
    ensures
        is_greatest_solution_within(
            defined_rule_in(cfg),
            defined_rule_out(cfg),
            cfg.nodes.len(),
            defined_universe(cfg),
            defined_solution(cfg).0,
            defined_solution(cfg).1,
        ),
{
    let u = defined_universe(cfg);
    lemma_undefined_rules(cfg);
    lemma_least_solution_exists(undefined_rule_in(cfg), undefined_rule_out(cfg), cfg.nodes.len(), u);
    let (ma, mb) = least_solution(undefined_rule_in(cfg), undefined_rule_out(cfg), cfg.nodes.len());
    lemma_defined_from_undefined(cfg, ma, mb);
    lemma_greatest_solution_unique(
        defined_rule_in(cfg),
        defined_rule_out(cfg),
        cfg.nodes.len(),
        u,
        complements(ma, u),
        complements(mb, u),
    );
}

fn defined_input(cfg: &Cfg, preds: &Vec<Vec<usize>>, outs: &Vec<NameSet>, k: usize) -> (r: NameSet)
    requires
        preds_ok(cfg.nodes@, preds@),
        outs@.len() == cfg.nodes@.len(),
        k < cfg.nodes@.len(),
    ensures
        r@ == defined_in(cfg@, k as int, name_sets(outs@)),
{
    let ghost ov = name_sets(outs@);
    let n = cfg.nodes.len();
    assert(n == cfg.nodes@.len());
    assert(cfg@.nodes == cfg.nodes@);
    if k == cfg.start {
        let mut r = NameSet::new();
        r.insert(cfg.input_var.clone());
        assert(r@ =~= set![cfg.input_var@]);
        return r;
    }
    let list = &preds[k];
    let ghost pk = list@;
    if list.len() == 0 {
        assert(!exists|p: int| is_pred(cfg.nodes@, p, k as int)) by {
            if exists|p: int| is_pred(cfg.nodes@, p, k as int) {
                let p = choose|p: int| is_pred(cfg.nodes@, p, k as int);
                assert(preds@[k as int]@.contains(p as usize));
            }
        }
        return NameSet::new();
    }
    assert(pk[0] < outs@.len());
    let mut r = outs[list[0]].copy();
    let mut i: usize = 1;
    assert(r@ =~= Set::new(|v: Seq<char>| forall|j: int| 0 <= j < 1 ==> ov[pk[j] as int].contains(v)));
    while i < list.len()
        invariant
            pk == list@,
            pk == preds@[k as int]@,
            preds_ok(cfg.nodes@, preds@),
            k < cfg.nodes@.len(),
            ov == name_sets(outs@),
            outs@.len() == cfg.nodes@.len(),
            1 <= i <= pk.len(),
            r@ == Set::new(|v: Seq<char>| forall|j: int| 0 <= j < i ==> ov[pk[j] as int].contains(v)),
        decreases pk.len() - i,
    {
        assert(pk[i as int] < outs@.len());
        let next = r.intersection(&outs[list[i]]);
        r = next;
        i = i + 1;
        assert(r@ =~= Set::new(|v: Seq<char>| forall|j: int| 0 <= j < i ==> ov[pk[j] as int].contains(v))) by {
            assert forall|v: Seq<char>| r@.contains(v) implies (forall|j: int| 0 <= j < i ==> ov[pk[j] as int].contains(v)) by {
                assert forall|j: int| 0 <= j < i implies ov[pk[j] as int].contains(v) by {
                    if j < i - 1 {
                    }
                }
            }
        }
    }
    assert(exists|p: int| is_pred(cfg.nodes@, p, k as int)) by {
        assert(pk.contains(pk[0]));
        assert(is_pred(cfg.nodes@, pk[0] as int, k as int));
    }
    assert(r@ =~= defined_in(cfg@, k as int, ov)) by {
        assert forall|v: Seq<char>| #[trigger] r@.contains(v) implies defined_in(cfg@, k as int, ov).contains(v) by {
            assert forall|p: int| #[trigger] is_pred(cfg.nodes@, p, k as int) implies ov[p].contains(v) by {
                assert(pk.contains(p as usize));
                let j = choose|j: int| 0 <= j < pk.len() && pk[j] == p as usize;
                assert(ov[pk[j] as int].contains(v));
            }
        }
        assert forall|v: Seq<char>| #[trigger] defined_in(cfg@, k as int, ov).contains(v) implies r@.contains(v) by {
            assert forall|j: int| 0 <= j < pk.len() implies ov[pk[j] as int].contains(v) by {
                assert(pk.contains(pk[j]));
                assert(is_pred(cfg.nodes@, pk[j] as int, k as int));
            }
        }
    }
    r
}

fn defined_output(cfg: &Cfg, ins: &Vec<NameSet>, k: usize) -> (r: NameSet)
    requires
        ins@.len() == cfg.nodes@.len(),
        k < cfg.nodes@.len(),
    ensures
        r@ == defined_out(cfg@, k as int, ins@[k as int]@),
{
    let mut r = ins[k].copy();
    if let Some(x) = assigned_variable(&cfg.nodes[k].block) {
        r.insert(x);
    }
    r
}

/// The universe of the defined-variables analysis: the input variable and
/// every variable that a node assigns.
fn universe_set(cfg: &Cfg) -> (r: NameSet)
    ensures
        r@ == defined_universe(cfg@),
{
    let mut s = NameSet::new();
    let mut k: usize = 0;
    assert(cfg.nodes@.subrange(0, 0) =~= Seq::<Node>::empty());
    while k < cfg.nodes.len()
        invariant
            k <= cfg.nodes@.len(),
            s@ == assigned_names(cfg.nodes@.subrange(0, k as int)),
        decreases cfg.nodes@.len() - k,
    {
        assert(cfg.nodes@.subrange(0, k + 1).drop_last() =~= cfg.nodes@.subrange(0, k as int));
        if let Some(x) = assigned_variable(&cfg.nodes[k].block) {
            s.insert(x);
        }
        k = k + 1;
    }
    assert(cfg.nodes@.subrange(0, cfg.nodes@.len() as int) =~= cfg.nodes@);
    s.insert(cfg.input_var.clone());
    s
}

/// `n` copies of a set of names.
fn filled_name_sets(s: &NameSet, n: usize) -> (r: Vec<NameSet>)
    ensures
        r@.len() == n,
        name_sets(r@) == Seq::new(n as nat, |k: int| s@),
{
    let mut v: Vec<NameSet> = Vec::new();
    let mut i: usize = 0;
    while i < n
        invariant
            i <= n,
            v@.len() == i,
            forall|j: int| 0 <= j < i ==> (#[trigger] v@[j])@ == s@,
        decreases n - i,
    {
        v.push(s.copy());
        i = i + 1;
    }
    assert(name_sets(v@) =~= Seq::new(n as nat, |k: int| s@));
    v
}

/// Computes, for every node, the variables surely defined on entry to it
/// and on exit from it, whatever path from the start node led there: the
/// greatest solution of the defined-variables equations within the input
/// variable and the assigned ones. Every set but the start node's starts
/// from all those variables, and round-robin passes shrink the sets until
/// a pass changes nothing.
pub fn defined_variables(cfg: &Cfg) -> (r: VariableAnnotatedCfg)
    requires
        cfg.wf(),
    ensures
        same_shape_variable(r, cfg@),
        is_greatest_solution_within(
            defined_rule_in(cfg@),
            defined_rule_out(cfg@),
            cfg.nodes@.len(),
            defined_universe(cfg@),
            variable_ins(r),
            variable_outs(r),
        ),
{
    let n = cfg.nodes.len();
    let ghost fa = undefined_rule_in(cfg@);
    let ghost fb = undefined_rule_out(cfg@);
    let ghost u = defined_universe(cfg@);
    let universe = universe_set(cfg);
    let preds = predecessors(cfg);
    let mut ins = filled_name_sets(&universe, n);
    let mut outs = filled_name_sets(&universe, n);
    proof {
        lemma_undefined_rules(cfg@);
        lemma_begin(fa, fb, n as nat, u);
        assert forall|i: int| 0 <= i < n implies #[trigger] complements(name_sets(ins@), u)[i]
            == empties::<Seq<char>>(n as nat)[i] && complements(name_sets(outs@), u)[i] == empties::<Seq<char>>(n as nat)[i] by {
            assert(name_sets(ins@)[i] == universe@ && name_sets(outs@)[i] == universe@);
            assert(complements(name_sets(ins@), u)[i] =~= Set::<Seq<char>>::empty());
            assert(complements(name_sets(outs@), u)[i] =~= Set::<Seq<char>>::empty());
        }
        assert(complements(name_sets(ins@), u) =~= empties::<Seq<char>>(n as nat));
        assert(complements(name_sets(outs@), u) =~= empties::<Seq<char>>(n as nat));
        assert forall|i: int| 0 <= i < n implies (#[trigger] name_sets(ins@)[i]).subset_of(u)
            && name_sets(outs@)[i].subset_of(u) by {
            assert(name_sets(ins@)[i] == universe@ && name_sets(outs@)[i] == universe@);
        }
    }
    loop
        invariant
            n == cfg.nodes@.len(),
            preds_ok(cfg.nodes@, preds@),
            fa == undefined_rule_in(cfg@),
            fb == undefined_rule_out(cfg@),
            u == defined_universe(cfg@),
            ins@.len() == n,
            outs@.len() == n,
            within(name_sets(ins@), u),
            within(name_sets(outs@), u),
            between_passes(fa, fb, n as nat, u, complements(name_sets(ins@), u), complements(name_sets(outs@), u)),
        ensures
            within(name_sets(ins@), u),
            within(name_sets(outs@), u),
            is_least_solution(fa, fb, n as nat, complements(name_sets(ins@), u), complements(name_sets(outs@), u)),
        decreases slack(complements(name_sets(ins@), u), u) + slack(complements(name_sets(outs@), u), u),
    {
        let ghost a0 = complements(name_sets(ins@), u);
        let ghost b0 = complements(name_sets(outs@), u);
        proof {
            lemma_slack_nonneg(fa, fb, n as nat, u, a0, b0);
        }
        let old_ins = copy_name_sets(&ins);
        let old_outs = copy_name_sets(&outs);
        proof {
            lemma_pass_begin(fa, fb, n as nat, u, a0, b0, 0);
        }
        let mut k: usize = 0;
        while k < n
            invariant
                n == cfg.nodes@.len(),
                preds_ok(cfg.nodes@, preds@),
                fa == undefined_rule_in(cfg@),
                fb == undefined_rule_out(cfg@),
                u == defined_universe(cfg@),
                ins@.len() == n,
                outs@.len() == n,
                within(name_sets(ins@), u),
                within(name_sets(outs@), u),
                k <= n,
                in_pass(fa, fb, n as nat, u, complements(name_sets(ins@), u), complements(name_sets(outs@), u), a0, b0, 0, k as int),
            decreases n - k,
        {
            let ghost a = name_sets(ins@);
            let ghost b = name_sets(outs@);
            let ghost ca = complements(a, u);
            let ghost cb = complements(b, u);
            proof {
                lemma_defined_dual_step(cfg@, a, b, k as int);
            }
            let input_set = defined_input(cfg, &preds, &outs, k);
            ins.set(k, input_set);
            let ghost a2 = name_sets(ins@);
            assert(a2 =~= a.update(k as int, defined_in(cfg@, k as int, b)));
            assert(complements(a2, u) =~= ca.update(k as int, fa(k as int, ca, cb)));
            assert(within(a2, u)) by {
                assert forall|i: int| 0 <= i < a2.len() implies (#[trigger] a2[i]).subset_of(u) by {
                    if i != k {
                        assert(a[i].subset_of(u));
                    }
                }
            }
            proof {
                lemma_defined_dual_step(cfg@, a2, b, k as int);
            }
            let output_set = defined_output(cfg, &ins, k);
            outs.set(k, output_set);
            let ghost b2 = name_sets(outs@);
            assert(b2 =~= b.update(k as int, defined_out(cfg@, k as int, a2[k as int])));
            assert(complements(b2, u) =~= cb.update(k as int, fb(k as int, complements(a2, u), cb)));
            assert(within(b2, u)) by {
                assert forall|i: int| 0 <= i < b2.len() implies (#[trigger] b2[i]).subset_of(u) by {
                    if i != k {
                        assert(b[i].subset_of(u));
                    }
                }
            }
            proof {
                lemma_pass_step(fa, fb, n as nat, u, ca, cb, a0, b0, 0, k as int, k as int);
            }
            k = k + 1;
        }
        let same_in = same_name_sets(&old_ins, &ins);
        let same_out = same_name_sets(&old_outs, &outs);
        proof {
            lemma_pass_end(fa, fb, n as nat, u, complements(name_sets(ins@), u), complements(name_sets(outs@), u), a0, b0);
            lemma_complements_twice(name_sets(ins@), u);
            lemma_complements_twice(name_sets(outs@), u);
            lemma_complements_twice(name_sets(old_ins@), u);
            lemma_complements_twice(name_sets(old_outs@), u);
        }
        if same_in && same_out {
            break;
        }
    }
    proof {
        lemma_defined_from_undefined(cfg@, complements(name_sets(ins@), u), complements(name_sets(outs@), u));
        lemma_complements_twice(name_sets(ins@), u);
        lemma_complements_twice(name_sets(outs@), u);
    }
    let mut nodes: Vec<VariableAnnotatedNode> = Vec::new();
    let mut k: usize = 0;
    while k < n
        invariant
            n == cfg.nodes@.len(),
            ins@.len() == n,
            outs@.len() == n,
            k <= n,
            nodes@.len() == k,
            forall|j: int| 0 <= j < k ==> (#[trigger] nodes@[j]).id == cfg.nodes@[j].id
                && nodes@[j].block == cfg.nodes@[j].block && nodes@[j].edge == cfg.nodes@[j].edge
                && nodes@[j].annotation.in_set@ == ins@[j]@ && nodes@[j].annotation.out_set@ == outs@[j]@,
        decreases n - k,
    {
        let node = &cfg.nodes[k];
        nodes.push(VariableAnnotatedNode {
            id: node.id,
            block: node.block.copy(),
            edge: node.edge.copy(),
            annotation: VariableAnnotation { in_set: ins[k].copy(), out_set: outs[k].copy() },
        });
        k = k + 1;
    }
    let r = VariableAnnotatedCfg { nodes, start: cfg.start, end: cfg.end };
    assert(variable_ins(r) =~= name_sets(ins@));
    assert(variable_outs(r) =~= name_sets(outs@));
    r
}

// ---------------------------------------------------------------------------
// Live variables

/// The variables live on exit from node `k`, from the entry sets `ins`:
/// those live on entry to a successor, and the output variable at the end
/// node.
pub open spec fn live_out(cfg: CfgModel, k: int, ins: Seq<Set<Seq<char>>>) -> Set<Seq<char>> {
    let from_succ = match cfg.nodes[k].edge {
        Edge::End => Set::empty(),
        Edge::Next(t) => ins[t as int],
        Edge::If { true_branch, false_branch } => ins[true_branch as int].union(ins[false_branch as int]),
    };
    if k == cfg.end as int {
        from_succ.insert(cfg.output_var)
    } else {
        from_succ
    }
}

/// The variables live on entry to node `k`: those live on exit but for the
/// one the node assigns, and those the node reads.
pub open spec fn live_in(cfg: CfgModel, k: int, out_k: Set<Seq<char>>) -> Set<Seq<char>> {
    let kept = match assigned(cfg.nodes[k].block) {
        Some(x) => out_k.remove(x),
        None => out_k,
    };
    kept.union(block_uses(cfg.nodes[k].block))
}

/// The exit equations of the live-variables analysis (computed first at
/// each node).
pub open spec fn live_rule_out(cfg: CfgModel) -> Rule<Seq<char>> {
    |k: int, a: Seq<Set<Seq<char>>>, b: Seq<Set<Seq<char>>>| live_out(cfg, k, b)
}

/// The entry equations of the live-variables analysis.
pub open spec fn live_rule_in(cfg: CfgModel) -> Rule<Seq<char>> {
    |k: int, a: Seq<Set<Seq<char>>>, b: Seq<Set<Seq<char>>>| live_in(cfg, k, a[k])
}

proof fn lemma_expr_vars_finite(e: Expr)
    ensures
        expr_vars(e).finite(),
    decreases e,
{
    match e {
        Expr::Add(a, b) | Expr::Sub(a, b) | Expr::Mul(a, b) => {
            lemma_expr_vars_finite(*a);
            lemma_expr_vars_finite(*b);
        },
        _ => {},
    }
}

proof fn lemma_bool_vars_finite(e: BoolExpr)
    ensures
        bool_vars(e).finite(),
    decreases e,
{
    match e {
        BoolExpr::Less(a, b) => {
            lemma_expr_vars_finite(*a);
            lemma_expr_vars_finite(*b);
        },
        BoolExpr::And(a, b) => {
            lemma_bool_vars_finite(*a);
            lemma_bool_vars_finite(*b);
        },
        BoolExpr::Not(a) => {
            lemma_bool_vars_finite(*a);
        },
        _ => {},
    }
}

proof fn lemma_block_uses_finite(b: Block)
    ensures
        block_uses(b).finite(),
{
    match b {
        Block::Assignment(_, e) => lemma_expr_vars_finite(e),
        Block::Condition(c) => lemma_bool_vars_finite(c),
        _ => {},
    }
}

/// The variables that the nodes read.
pub open spec fn used_names(ns: Seq<Node>) -> Set<Seq<char>>
    decreases ns.len(),
{
    if ns.len() == 0 {
        Set::empty()
    } else {
        used_names(ns.drop_last()).union(block_uses(ns.last().block))
    }
}

proof fn lemma_used_names(ns: Seq<Node>)
    ensures
        used_names(ns).finite(),
        forall|k: int| 0 <= k < ns.len() ==> (#[trigger] block_uses(ns[k].block)).subset_of(used_names(ns)),
    decreases ns.len(),
{
    if ns.len() > 0 {
        lemma_used_names(ns.drop_last());
        lemma_block_uses_finite(ns.last().block);
        assert forall|k: int| 0 <= k < ns.len() implies (#[trigger] block_uses(ns[k].block)).subset_of(used_names(ns)) by {
            if k < ns.len() - 1 {
                assert(ns[k] == ns.drop_last()[k]);
                assert(block_uses(ns.drop_last()[k].block).subset_of(used_names(ns.drop_last())));
            }
        }
    }
}

/// Every set that the live-variables analysis computes lies in this finite
/// set.
pub open spec fn live_universe(cfg: CfgModel) -> Set<Seq<char>> {
    used_names(cfg.nodes).insert(cfg.output_var)
}

/// The live-variables equations of a well-formed graph are monotone and
/// keep the sets within a finite set of names.
pub proof fn lemma_live_rules(cfg: CfgModel)
    requires
        cfg.wf(),
    ensures
        monotone(live_rule_out(cfg), live_rule_in(cfg), cfg.nodes.len()),
        bounded(live_rule_out(cfg), live_rule_in(cfg), cfg.nodes.len(), live_universe(cfg)),
        live_universe(cfg).finite(),
{
    let n = cfg.nodes.len();
    let fa = live_rule_out(cfg);
    let fb = live_rule_in(cfg);
    let u = live_universe(cfg);
    lemma_used_names(cfg.nodes);
    assert forall|k: int, a: Seq<Set<Seq<char>>>, b: Seq<Set<Seq<char>>>, a2: Seq<Set<Seq<char>>>, b2: Seq<Set<Seq<char>>>|
        #![trigger fa(k, a, b), fa(k, a2, b2)]
        #![trigger fb(k, a, b), fb(k, a2, b2)]
        0 <= k < n && a.len() == n && b.len() == n && le(a, a2) && le(b, b2) implies fa(k, a, b).subset_of(
        fa(k, a2, b2),
    ) && fb(k, a, b).subset_of(fb(k, a2, b2)) by {
        assert(a[k].subset_of(a2[k]));
        assert(cfg.nodes[k].id == k && edge_in(cfg.nodes[k].edge, n as int));
        match cfg.nodes[k].edge {
            Edge::Next(t) => {
                assert(b[t as int].subset_of(b2[t as int]));
            },
            Edge::If { true_branch, false_branch } => {
                assert(b[true_branch as int].subset_of(b2[true_branch as int]));
                assert(b[false_branch as int].subset_of(b2[false_branch as int]));
            },
            _ => {},
        }
    }
    assert forall|k: int, a: Seq<Set<Seq<char>>>, b: Seq<Set<Seq<char>>>|
        #![trigger fa(k, a, b)]
        #![trigger fb(k, a, b)]
        0 <= k < n && a.len() == n && b.len() == n && within(a, u) && within(b, u) implies fa(k, a, b).subset_of(u)
        && fb(k, a, b).subset_of(u) by {
        assert(a[k].subset_of(u));
        assert(cfg.nodes[k].id == k && edge_in(cfg.nodes[k].edge, n as int));
        assert(block_uses(cfg.nodes[k].block).subset_of(used_names(cfg.nodes)));
        match cfg.nodes[k].edge {
            Edge::Next(t) => {
                assert(b[t as int].subset_of(u));
            },
            Edge::If { true_branch, false_branch } => {
                assert(b[true_branch as int].subset_of(u));
                assert(b[false_branch as int].subset_of(u));
            },
            _ => {},
        }
    }
}

fn live_output(cfg: &Cfg, ins: &Vec<NameSet>, k: usize) -> (r: NameSet)
    requires
        cfg.wf(),
        ins@.len() == cfg.nodes@.len(),
        k < cfg.nodes@.len(),
    ensures
        r@ == live_out(cfg@, k as int, name_sets(ins@)),
{
    let ghost iv = name_sets(ins@);
    let node = &cfg.nodes[k];
    assert(node.id == k && edge_in(node.edge, cfg.nodes@.len() as int));
    let next = successors(&node.edge);
    let mut r = NameSet::new();
    let mut i: usize = 0;
    while i < next.len()
        invariant
            next@ == succ_seq(node.edge),
            edge_in(node.edge, cfg.nodes@.len() as int),
            ins@.len() == cfg.nodes@.len(),
            iv == name_sets(ins@),
            i <= next@.len(),
            r@ == Set::new(|v: Seq<char>| exists|j: int| 0 <= j < i && #[trigger] iv[next@[j] as int].contains(v)),
        decreases next@.len() - i,
    {
        assert(next@[i as int] < ins@.len());
        r.union_with(&ins[next[i]]);
        i = i + 1;
        assert(r@ =~= Set::new(|v: Seq<char>| exists|j: int| 0 <= j < i && #[trigger] iv[next@[j] as int].contains(v))) by {
            assert forall|v: Seq<char>| #[trigger] r@.contains(v) implies exists|j: int| 0 <= j < i && #[trigger] iv[next@[j] as int].contains(v) by {
                if iv[next@[i - 1] as int].contains(v) {
                } else {
                }
            }
        }
    }
    let ghost from_succ = match node.edge {
        Edge::End => Set::<Seq<char>>::empty(),
        Edge::Next(t) => iv[t as int],
        Edge::If { true_branch, false_branch } => iv[true_branch as int].union(iv[false_branch as int]),
    };
    assert(r@ =~= from_succ) by {
        match node.edge {
            Edge::End => {},
            Edge::Next(t) => {
                assert forall|v: Seq<char>| iv[t as int].contains(v) implies r@.contains(v) by {
                    assert(iv[next@[0] as int].contains(v));
                }
            },
            Edge::If { true_branch, false_branch } => {
                assert forall|v: Seq<char>| from_succ.contains(v) implies r@.contains(v) by {
                    if iv[true_branch as int].contains(v) {
                        assert(iv[next@[0] as int].contains(v));
                    } else {
                        assert(iv[next@[1] as int].contains(v));
                    }
                }
            },
        }
    }
    if node.id == cfg.end {
        r.insert(cfg.output_var.clone());
    }
    r
}

fn live_input(cfg: &Cfg, outs: &Vec<NameSet>, k: usize) -> (r: NameSet)
    requires
        outs@.len() == cfg.nodes@.len(),
        k < cfg.nodes@.len(),
    ensures
        r@ == live_in(cfg@, k as int, outs@[k as int]@),
{
    let block = &cfg.nodes[k].block;
    let mut r = outs[k].copy();
    if let Some(x) = assigned_variable(block) {
        r.remove(&x);
    }
    r.union_with(&used_variables(block));
    r
}

/// Computes, for every node, the variables live on entry to it and on exit
/// from it: those whose current value may still be read before they are
/// assigned again, the output variable counting as read at the end.
pub fn live_variables(cfg: &Cfg) -> (r: VariableAnnotatedCfg)
    requires
        cfg.wf(),
    ensures
        same_shape_variable(r, cfg@),
        is_least_solution(
            live_rule_out(cfg@),
            live_rule_in(cfg@),
            cfg.nodes@.len(),
            variable_outs(r),
            variable_ins(r),
        ),
{
    let n = cfg.nodes.len();
    let ghost fa = live_rule_out(cfg@);
    let ghost fb = live_rule_in(cfg@);
    let ghost u = live_universe(cfg@);
    proof {
        lemma_live_rules(cfg@);
        lemma_begin(fa, fb, n as nat, u);
    }
    let mut ins = empty_name_sets(n);
    let mut outs = empty_name_sets(n);
    loop
        invariant
            n == cfg.nodes@.len(),
            cfg.wf(),
            fa == live_rule_out(cfg@),
            fb == live_rule_in(cfg@),
            ins@.len() == n,
            outs@.len() == n,
            between_passes(fa, fb, n as nat, u, name_sets(outs@), name_sets(ins@)),
        ensures
            is_least_solution(fa, fb, n as nat, name_sets(outs@), name_sets(ins@)),
        decreases slack(name_sets(outs@), u) + slack(name_sets(ins@), u),
    {
        proof {
            lemma_slack_nonneg(fa, fb, n as nat, u, name_sets(outs@), name_sets(ins@));
        }
        let old_ins = copy_name_sets(&ins);
        let old_outs = copy_name_sets(&outs);
        let ghost a0 = name_sets(outs@);
        let ghost b0 = name_sets(ins@);
        proof {
            lemma_pass_begin(fa, fb, n as nat, u, a0, b0, n as int);
        }
        let mut k: usize = n;
        while k > 0
            invariant
                n == cfg.nodes@.len(),
                cfg.wf(),
                fa == live_rule_out(cfg@),
                fb == live_rule_in(cfg@),
                ins@.len() == n,
                outs@.len() == n,
                k <= n,
                in_pass(fa, fb, n as nat, u, name_sets(outs@), name_sets(ins@), a0, b0, k as int, n as int),
            decreases k,
        {
            let node = k - 1;
            let ghost a = name_sets(outs@);
            let ghost b = name_sets(ins@);
            let output_set = live_output(cfg, &ins, node);
            outs.set(node, output_set);
            assert(name_sets(outs@) =~= a.update(node as int, fa(node as int, a, b)));
            let input_set = live_input(cfg, &outs, node);
            ins.set(node, input_set);
            assert(name_sets(ins@) =~= b.update(node as int, fb(node as int, name_sets(outs@), b)));
            proof {
                lemma_pass_step(fa, fb, n as nat, u, a, b, a0, b0, k as int, n as int, node as int);
            }
            k = node;
        }
        let same_in = same_name_sets(&old_ins, &ins);
        let same_out = same_name_sets(&old_outs, &outs);
        proof {
            lemma_pass_end(fa, fb, n as nat, u, name_sets(outs@), name_sets(ins@), a0, b0);
        }
        if same_in && same_out {
            break;
        }
    }
    let mut nodes: Vec<VariableAnnotatedNode> = Vec::new();
    let mut k: usize = 0;
    while k < n
        invariant
            n == cfg.nodes@.len(),
            ins@.len() == n,
            outs@.len() == n,
            k <= n,
            nodes@.len() == k,
            forall|j: int| 0 <= j < k ==> (#[trigger] nodes@[j]).id == cfg.nodes@[j].id
                && nodes@[j].block == cfg.nodes@[j].block && nodes@[j].edge == cfg.nodes@[j].edge
                && nodes@[j].annotation.in_set@ == ins@[j]@ && nodes@[j].annotation.out_set@ == outs@[j]@,
        decreases n - k,
    {
        let node = &cfg.nodes[k];
        nodes.push(VariableAnnotatedNode {
            id: node.id,
            block: node.block.copy(),
            edge: node.edge.copy(),
            annotation: VariableAnnotation { in_set: ins[k].copy(), out_set: outs[k].copy() },
        });
        k = k + 1;
    }
    let r = VariableAnnotatedCfg { nodes, start: cfg.start, end: cfg.end };
    assert(variable_ins(r) =~= name_sets(ins@));
    assert(variable_outs(r) =~= name_sets(outs@));
    r
}

// ---------------------------------------------------------------------------
// Reaching definitions

/// The definitions that reach the entry of node `k`, from the exit sets
/// `outs`: the input definition at the start node, and every definition
/// that leaves a predecessor.
pub open spec fn reach_in(cfg: CfgModel, k: int, outs: Seq<Set<(Seq<char>, DefinitionPlace)>>) -> Set<(Seq<char>, DefinitionPlace)> {
    let base = if k == cfg.start as int {
        set![(cfg.input_var, DefinitionPlace::Input)]
    } else {
        Set::empty()
    };
    base.union(
        Set::new(
            |d: (Seq<char>, DefinitionPlace)|
                exists|p: int| #[trigger] is_pred(cfg.nodes, p, k) && outs[p].contains(d),
        ),
    )
}

/// The definitions that leave node `k`: an assignment kills every
/// definition of its variable and adds its own.
pub open spec fn reach_out(cfg: CfgModel, k: int, in_k: Set<(Seq<char>, DefinitionPlace)>) -> Set<(Seq<char>, DefinitionPlace)> {
    match assigned(cfg.nodes[k].block) {
        Some(x) => in_k.filter(|d: (Seq<char>, DefinitionPlace)| d.0 != x).insert(
            (x, DefinitionPlace::Node(k as usize)),
        ),
        None => in_k,
    }
}

/// The entry equations of the reaching-definitions analysis.
pub open spec fn reach_rule_in(cfg: CfgModel) -> Rule<(Seq<char>, DefinitionPlace)> {
    |k: int, a: Seq<Set<(Seq<char>, DefinitionPlace)>>, b: Seq<Set<(Seq<char>, DefinitionPlace)>>| reach_in(cfg, k, b)
}

/// The exit equations of the reaching-definitions analysis.
pub open spec fn reach_rule_out(cfg: CfgModel) -> Rule<(Seq<char>, DefinitionPlace)> {
    |k: int, a: Seq<Set<(Seq<char>, DefinitionPlace)>>, b: Seq<Set<(Seq<char>, DefinitionPlace)>>| reach_out(cfg, k, a[k])
}

/// The definitions that the first `m` nodes make.
pub open spec fn def_points(ns: Seq<Node>, m: int) -> Set<(Seq<char>, DefinitionPlace)>
    decreases m,
{
    if m <= 0 {
        Set::empty()
    } else {
        match assigned(ns[m - 1].block) {
            Some(x) => def_points(ns, m - 1).insert((x, DefinitionPlace::Node((m - 1) as usize))),
            None => def_points(ns, m - 1),
        }
    }
}

proof fn lemma_def_points(ns: Seq<Node>, m: int)
    ensures
        def_points(ns, m).finite(),
        forall|k: int| 0 <= k < m ==> (#[trigger] assigned(ns[k].block) matches Some(x)
            ==> def_points(ns, m).contains((x, DefinitionPlace::Node(k as usize)))),
    decreases m,
{
    if m > 0 {
        lemma_def_points(ns, m - 1);
    }
}

/// Every set that the reaching-definitions analysis computes lies in this
/// finite set.
pub open spec fn reach_universe(cfg: CfgModel) -> Set<(Seq<char>, DefinitionPlace)> {
    def_points(cfg.nodes, cfg.nodes.len() as int).insert((cfg.input_var, DefinitionPlace::Input))
}

/// The reaching-definitions equations are monotone and keep the sets
/// within a finite set of definitions.
pub proof fn lemma_reach_rules(cfg: CfgModel)
    ensures
        monotone(reach_rule_in(cfg), reach_rule_out(cfg), cfg.nodes.len()),
        bounded(reach_rule_in(cfg), reach_rule_out(cfg), cfg.nodes.len(), reach_universe(cfg)),
        reach_universe(cfg).finite(),
{
    let n = cfg.nodes.len();
    let fa = reach_rule_in(cfg);
    let fb = reach_rule_out(cfg);
    let u = reach_universe(cfg);
    lemma_def_points(cfg.nodes, n as int);
    assert forall|k: int, a: Seq<Set<(Seq<char>, DefinitionPlace)>>, b: Seq<Set<(Seq<char>, DefinitionPlace)>>, a2: Seq<Set<(Seq<char>, DefinitionPlace)>>, b2: Seq<Set<(Seq<char>, DefinitionPlace)>>|
        #![trigger fa(k, a, b), fa(k, a2, b2)]
        #![trigger fb(k, a, b), fb(k, a2, b2)]
        0 <= k < n && a.len() == n && b.len() == n && le(a, a2) && le(b, b2) implies fa(k, a, b).subset_of(
        fa(k, a2, b2),
    ) && fb(k, a, b).subset_of(fb(k, a2, b2)) by {
        assert(a[k].subset_of(a2[k]));
        assert forall|d: (Seq<char>, DefinitionPlace)| #[trigger] fa(k, a, b).contains(d) implies fa(k, a2, b2).contains(d) by {
            if exists|p: int| #[trigger] is_pred(cfg.nodes, p, k) && b[p].contains(d) {
                let p = choose|p: int| #[trigger] is_pred(cfg.nodes, p, k) && b[p].contains(d);
                assert(b[p].subset_of(b2[p]));
            }
        }
    }
    assert forall|k: int, a: Seq<Set<(Seq<char>, DefinitionPlace)>>, b: Seq<Set<(Seq<char>, DefinitionPlace)>>|
        #![trigger fa(k, a, b)]
        #![trigger fb(k, a, b)]
        0 <= k < n && a.len() == n && b.len() == n && within(a, u) && within(b, u) implies fa(k, a, b).subset_of(u)
        && fb(k, a, b).subset_of(u) by {
        assert(a[k].subset_of(u));
        assert forall|d: (Seq<char>, DefinitionPlace)| #[trigger] fa(k, a, b).contains(d) implies u.contains(d) by {
            if exists|p: int| #[trigger] is_pred(cfg.nodes, p, k) && b[p].contains(d) {
                let p = choose|p: int| #[trigger] is_pred(cfg.nodes, p, k) && b[p].contains(d);
                assert(b[p].subset_of(u));
            }
        }
        if let Some(x) = assigned(cfg.nodes[k].block) {
            assert(def_points(cfg.nodes, n as int).contains((x, DefinitionPlace::Node(k as usize))));
        }
    }
}

fn reach_input(cfg: &Cfg, preds: &Vec<Vec<usize>>, outs: &Vec<DefinitionSet>, k: usize) -> (r: DefinitionSet)
    requires
        preds_ok(cfg.nodes@, preds@),
        outs@.len() == cfg.nodes@.len(),
        k < cfg.nodes@.len(),
    ensures
        r@ == reach_in(cfg@, k as int, definition_sets(outs@)),
{
    let ghost ov = definition_sets(outs@);
    let n = cfg.nodes.len();
    let mut r = DefinitionSet::new();
    if k == cfg.start {
        r.insert(Definition { variable: cfg.input_var.clone(), place: DefinitionPlace::Input });
    }
    let ghost base = r@;
    let list = &preds[k];
    let ghost pk = list@;
    let mut i: usize = 0;
    assert(r@ =~= base.union(Set::new(|d: (Seq<char>, DefinitionPlace)| exists|j: int| 0 <= j < 0 && #[trigger] ov[pk[j] as int].contains(d))));
    while i < list.len()
        invariant
            pk == list@,
            pk == preds@[k as int]@,
            preds_ok(cfg.nodes@, preds@),
            k < cfg.nodes@.len(),
            ov == definition_sets(outs@),
            outs@.len() == cfg.nodes@.len(),
            i <= pk.len(),
            r@ == base.union(Set::new(|d: (Seq<char>, DefinitionPlace)| exists|j: int| 0 <= j < i && #[trigger] ov[pk[j] as int].contains(d))),
        decreases pk.len() - i,
    {
        assert(pk[i as int] < outs@.len());
        r.union_with(&outs[list[i]]);
        i = i + 1;
        assert(r@ =~= base.union(Set::new(|d: (Seq<char>, DefinitionPlace)| exists|j: int| 0 <= j < i && #[trigger] ov[pk[j] as int].contains(d)))) by {
            assert forall|d: (Seq<char>, DefinitionPlace)| #[trigger] r@.contains(d) implies base.union(Set::new(|d: (Seq<char>, DefinitionPlace)| exists|j: int| 0 <= j < i && #[trigger] ov[pk[j] as int].contains(d))).contains(d) by {
                if ov[pk[i - 1] as int].contains(d) {
                    assert(ov[pk[i - 1] as int].contains(d));
                }
            }
        }
    }
    assert(r@ =~= reach_in(cfg@, k as int, ov)) by {
        assert forall|d: (Seq<char>, DefinitionPlace)| #[trigger] r@.contains(d) implies reach_in(cfg@, k as int, ov).contains(d) by {
            if !base.contains(d) {
                let j = choose|j: int| 0 <= j < pk.len() && #[trigger] ov[pk[j] as int].contains(d);
                assert(pk.contains(pk[j]));
                assert(is_pred(cfg.nodes@, pk[j] as int, k as int));
            }
        }
        assert forall|d: (Seq<char>, DefinitionPlace)| #[trigger] reach_in(cfg@, k as int, ov).contains(d) implies r@.contains(d) by {
            if !base.contains(d) {
                let p = choose|p: int| #[trigger] is_pred(cfg.nodes@, p, k as int) && ov[p].contains(d);
                assert(pk.contains(p as usize));
                let j = choose|j: int| 0 <= j < pk.len() && pk[j] == p as usize;
                assert(ov[pk[j] as int].contains(d));
            }
        }
    }
    r
}

fn reach_output(cfg: &Cfg, ins: &Vec<DefinitionSet>, k: usize) -> (r: DefinitionSet)
    requires
        cfg.wf(),
        ins@.len() == cfg.nodes@.len(),
        k < cfg.nodes@.len(),
    ensures
        r@ == reach_out(cfg@, k as int, ins@[k as int]@),
{
    let node = &cfg.nodes[k];
    assert(node.id == k);
    match assigned_variable(&node.block) {
        Some(x) => {
            let mut r = ins[k].without_variable(&x);
            r.insert(Definition { variable: x, place: DefinitionPlace::Node(node.id) });
            r
        },
        None => ins[k].copy(),
    }
}

/// Computes, for every node, the definitions that reach its entry and its
/// exit: the assignments (or the program's input) whose value a variable
/// may still hold there.
pub fn reaching_definitions(cfg: &Cfg) -> (r: ReachingAnnotatedCfg)
    requires
        cfg.wf(),
    ensures
        same_shape_reaching(r, cfg@),
        is_least_solution(
            reach_rule_in(cfg@),
            reach_rule_out(cfg@),
            cfg.nodes@.len(),
            reaching_ins(r),
            reaching_outs(r),
        ),
{
    let n = cfg.nodes.len();
    let ghost fa = reach_rule_in(cfg@);
    let ghost fb = reach_rule_out(cfg@);
    let ghost u = reach_universe(cfg@);
    proof {
        lemma_reach_rules(cfg@);
        lemma_begin(fa, fb, n as nat, u);
    }
    let preds = predecessors(cfg);
    let mut ins = empty_definition_sets(n);
    let mut outs = empty_definition_sets(n);
    loop
        invariant
            n == cfg.nodes@.len(),
            cfg.wf(),
            preds_ok(cfg.nodes@, preds@),
            fa == reach_rule_in(cfg@),
            fb == reach_rule_out(cfg@),
            ins@.len() == n,
            outs@.len() == n,
            between_passes(fa, fb, n as nat, u, definition_sets(ins@), definition_sets(outs@)),
        ensures
            is_least_solution(fa, fb, n as nat, definition_sets(ins@), definition_sets(outs@)),
        decreases slack(definition_sets(ins@), u) + slack(definition_sets(outs@), u),
    {
        proof {
            lemma_slack_nonneg(fa, fb, n as nat, u, definition_sets(ins@), definition_sets(outs@));
        }
        let old_ins = copy_definition_sets(&ins);
        let old_outs = copy_definition_sets(&outs);
        let ghost a0 = definition_sets(ins@);
        let ghost b0 = definition_sets(outs@);
        proof {
            lemma_pass_begin(fa, fb, n as nat, u, a0, b0, 0);
        }
        let mut k: usize = 0;
        while k < n
            invariant
                n == cfg.nodes@.len(),
            cfg.wf(),
            preds_ok(cfg.nodes@, preds@),
                fa == reach_rule_in(cfg@),
                fb == reach_rule_out(cfg@),
                ins@.len() == n,
                outs@.len() == n,
                k <= n,
                in_pass(fa, fb, n as nat, u, definition_sets(ins@), definition_sets(outs@), a0, b0, 0, k as int),
            decreases n - k,
        {
            let ghost a = definition_sets(ins@);
            let ghost b = definition_sets(outs@);
            let input_set = reach_input(cfg, &preds, &outs, k);
            ins.set(k, input_set);
            assert(definition_sets(ins@) =~= a.update(k as int, fa(k as int, a, b)));
            let output_set = reach_output(cfg, &ins, k);
            outs.set(k, output_set);
            assert(definition_sets(outs@) =~= b.update(k as int, fb(k as int, definition_sets(ins@), b)));
            proof {
                lemma_pass_step(fa, fb, n as nat, u, a, b, a0, b0, 0, k as int, k as int);
            }
            k = k + 1;
        }
        let same_in = same_definition_sets(&old_ins, &ins);
        let same_out = same_definition_sets(&old_outs, &outs);
        proof {
            lemma_pass_end(fa, fb, n as nat, u, definition_sets(ins@), definition_sets(outs@), a0, b0);
        }
        if same_in && same_out {
            break;
        }
    }
    let mut nodes: Vec<ReachingAnnotatedNode> = Vec::new();
    let mut k: usize = 0;
    while k < n
        invariant
            n == cfg.nodes@.len(),
            ins@.len() == n,
            outs@.len() == n,
            k <= n,
            nodes@.len() == k,
            forall|j: int| 0 <= j < k ==> (#[trigger] nodes@[j]).id == cfg.nodes@[j].id
                && nodes@[j].block == cfg.nodes@[j].block && nodes@[j].edge == cfg.nodes@[j].edge
                && nodes@[j].annotation.in_set@ == ins@[j]@ && nodes@[j].annotation.out_set@ == outs@[j]@,
        decreases n - k,
    {
        let node = &cfg.nodes[k];
        nodes.push(ReachingAnnotatedNode {
            id: node.id,
            block: node.block.copy(),
            edge: node.edge.copy(),
            annotation: ReachingAnnotation { in_set: ins[k].copy(), out_set: outs[k].copy() },
        });
        k = k + 1;
    }
    let r = ReachingAnnotatedCfg { nodes, start: cfg.start, end: cfg.end };
    assert(reaching_ins(r) =~= definition_sets(ins@));
    assert(reaching_outs(r) =~= definition_sets(outs@));
    r
}

} // verus!
