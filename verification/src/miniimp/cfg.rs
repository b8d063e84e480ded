//! Control-flow graphs of MiniImp programs.
use vstd::prelude::*;
use crate::miniimp::ast::{BoolExpr, Cmd, Expr, Program};
use crate::miniimp::dataflow_paths::{connects, lemma_program_cfg_connected};

verus! {

/// What a node of the graph does.
#[derive(Debug)]
pub enum Block {
    Skip,
    Assignment(String, Expr),
    Condition(BoolExpr),
}

/// Where control goes after a node.
#[derive(Debug)]
pub enum Edge {
    End,
    Next(usize),
    If { true_branch: usize, false_branch: usize },
}

/// A node of the graph.
#[derive(Debug)]
pub struct Node {
    pub id: usize,
    pub block: Block,
    pub edge: Edge,
}

/// The control-flow graph of a program, with the program's input and output
/// variables.
#[derive(Debug)]
pub struct Cfg {
    pub nodes: Vec<Node>,
    pub start: usize,
    pub end: usize,
    pub input_var: String,
    pub output_var: String,
}

impl Block {
    /// A copy of the block.
    pub fn copy(&self) -> (r: Block)
        ensures
            r == *self,
    {
        match self {
            Block::Skip => Block::Skip,
            Block::Assignment(x, e) => Block::Assignment(x.clone(), e.copy()),
            Block::Condition(c) => Block::Condition(c.copy()),
        }
    }
}

impl Edge {
    /// A copy of the edge.
    pub fn copy(&self) -> (r: Edge)
        ensures
            r == *self,
    {
        match self {
            Edge::End => Edge::End,
            Edge::Next(k) => Edge::Next(*k),
            Edge::If { true_branch, false_branch } => Edge::If { true_branch: *true_branch, false_branch: *false_branch },
        }
    }
}

impl Node {
    /// A copy of the node.
    pub fn copy(&self) -> (r: Node)
        ensures
            r == *self,
    {
        Node { id: self.id, block: self.block.copy(), edge: self.edge.copy() }
    }
}

impl Cfg {
    /// A copy of the graph.
    pub fn copy(&self) -> (r: Cfg)
        ensures
            r.nodes@ == self.nodes@,
            r.start == self.start,
            r.end == self.end,
            r.input_var == self.input_var,
            r.output_var == self.output_var,
    {
        let mut nodes: Vec<Node> = Vec::new();
        let mut i: usize = 0;
        while i < self.nodes.len()
            invariant
                i <= self.nodes@.len(),
                nodes@ == self.nodes@.subrange(0, i as int),
            decreases self.nodes@.len() - i,
        {
            nodes.push(self.nodes[i].copy());
            i = i + 1;
            assert(nodes@ =~= self.nodes@.subrange(0, i as int));
        }
        assert(nodes@ =~= self.nodes@);
        Cfg {
            nodes,
            start: self.start,
            end: self.end,
            input_var: self.input_var.clone(),
            output_var: self.output_var.clone(),
        }
    }
}

/// Does every target of the edge lie below `n`?
pub open spec fn edge_in(e: Edge, n: int) -> bool {
    match e {
        Edge::End => true,
        Edge::Next(k) => k < n,
        Edge::If { true_branch, false_branch } => true_branch < n && false_branch < n,
    }
}

/// Each node's id is its index, and every edge leads to a node of the list.
pub open spec fn nodes_wf(ns: Seq<Node>) -> bool {
    forall|i: int| 0 <= i < ns.len() ==> (#[trigger] ns[i]).id == i && edge_in(ns[i].edge, ns.len() as int)
}

/// A control-flow graph with its variable names taken by view.
pub struct CfgModel {
    pub nodes: Seq<Node>,
    pub start: usize,
    pub end: usize,
    pub input_var: Seq<char>,
    pub output_var: Seq<char>,
}

impl CfgModel {
    /// Each node's id is its index, every edge leads to a node of the graph,
    /// and the start and end nodes are nodes of the graph.
    pub open spec fn wf(&self) -> bool {
        &&& nodes_wf(self.nodes)
        &&& self.start < self.nodes.len()
        &&& self.end < self.nodes.len()
    }

    /// The graph with other nodes.
    pub open spec fn with_nodes(self, nodes: Seq<Node>) -> CfgModel {
        CfgModel { nodes, ..self }
    }
}

impl View for Cfg {
    type V = CfgModel;

    open spec fn view(&self) -> CfgModel {
        CfgModel {
            nodes: self.nodes@,
            start: self.start,
            end: self.end,
            input_var: self.input_var@,
            output_var: self.output_var@,
        }
    }
}

impl Cfg {
    /// Each node's id is its index, every edge leads to a node of the graph,
    /// and the start and end nodes are nodes of the graph.
    pub open spec fn wf(&self) -> bool {
        self@.wf()
    }
}

/// Only the exit node of the graph has no edge out.
pub open spec fn ends_only_at_exit(g: CfgModel) -> bool {
    forall|k: int| 0 <= k < g.nodes.len() && (#[trigger] g.nodes[k]).edge == Edge::End ==> k == g.end as int
}

/// A new node at the end of the list, with no edge yet.
pub open spec fn push_node(ns: Seq<Node>, block: Block) -> Seq<Node> {
    ns.push(Node { id: ns.len() as usize, block, edge: Edge::End })
}

/// The list with the edge of node `i` replaced.
pub open spec fn set_edge(ns: Seq<Node>, i: int, e: Edge) -> Seq<Node> {
    ns.update(i, Node { id: ns[i].id, block: ns[i].block, edge: e })
}

/// The nodes after adding the graph of a command to `ns`, with the
/// command's first and last nodes.
pub open spec fn build_spec(ns: Seq<Node>, c: Cmd) -> (Seq<Node>, int, int)
    decreases c,
{
    match c {
        Cmd::Skip => (push_node(ns, Block::Skip), ns.len() as int, ns.len() as int),
        Cmd::Assign(x, e) => (push_node(ns, Block::Assignment(x, e)), ns.len() as int, ns.len() as int),
        Cmd::Sequence(a, b) => {
            let (n1, s1, e1) = build_spec(ns, *a);
            let (n2, s2, e2) = build_spec(n1, *b);
            (set_edge(n2, e1, Edge::Next(s2 as usize)), s1, e2)
        },
        Cmd::If(cond, a, b) => {
            let cid = ns.len() as int;
            let n0 = push_node(ns, Block::Condition(cond));
            let (n1, ts, te) = build_spec(n0, *a);
            let (n2, es, ee) = build_spec(n1, *b);
            let after = n2.len() as int;
            let n3 = push_node(n2, Block::Skip);
            let n4 = set_edge(n3, cid, Edge::If { true_branch: ts as usize, false_branch: es as usize });
            let n5 = set_edge(n4, te, Edge::Next(after as usize));
            (set_edge(n5, ee, Edge::Next(after as usize)), cid, after)
        },
        Cmd::While(cond, body) => {
            let cid = ns.len() as int;
            let n0 = push_node(ns, Block::Condition(cond));
            let (n1, bs, be) = build_spec(n0, *body);
            let after = n1.len() as int;
            let n2 = push_node(n1, Block::Skip);
            let n3 = set_edge(n2, cid, Edge::If { true_branch: bs as usize, false_branch: after as usize });
            (set_edge(n3, be, Edge::Next(cid as usize)), cid, after)
        },
    }
}

/// The graph that `build_cfg` gives for a program.
pub open spec fn program_cfg(p: Program) -> CfgModel {
    let (ns, s, e) = build_spec(Seq::empty(), p.body);
    CfgModel { nodes: ns, start: s as usize, end: e as usize, input_var: p.input_var@, output_var: p.output_var@ }
}

/// The number of nodes that the graph of a command has.
pub open spec fn cmd_nodes(c: Cmd) -> nat
    decreases c,
{
    match c {
        Cmd::Skip => 1,
        Cmd::Assign(_, _) => 1,
        Cmd::Sequence(a, b) => cmd_nodes(*a) + cmd_nodes(*b),
        Cmd::If(_, a, b) => cmd_nodes(*a) + cmd_nodes(*b) + 2,
        Cmd::While(_, b) => cmd_nodes(*b) + 2,
    }
}

/// Building keeps the nodes already there (but for edges), adds
/// `cmd_nodes(c)` nodes, keeps the list well formed, and gives first and
/// last nodes among the new ones.
pub proof fn lemma_build_shape(ns: Seq<Node>, c: Cmd)
    requires
        nodes_wf(ns),
        ns.len() + cmd_nodes(c) <= usize::MAX,
    ensures
        ({
            let (n, s, e) = build_spec(ns, c);
            &&& nodes_wf(n)
            &&& n.len() == ns.len() + cmd_nodes(c)
            &&& ns.len() <= s < n.len()
            &&& ns.len() <= e < n.len()
            &&& forall|i: int| 0 <= i < ns.len() ==> (#[trigger] n[i]).block == ns[i].block
        }),
    decreases c,
{
    match c {
        Cmd::Skip | Cmd::Assign(_, _) => {
            let n = build_spec(ns, c).0;
            assert forall|i: int| 0 <= i < n.len() implies (#[trigger] n[i]).id == i && edge_in(n[i].edge, n.len() as int) by {
                if i < ns.len() {
                    assert(ns[i].id == i && edge_in(ns[i].edge, ns.len() as int));
                }
            }
        },
        Cmd::Sequence(a, b) => {
            lemma_build_shape(ns, *a);
            let (n1, s1, e1) = build_spec(ns, *a);
            lemma_build_shape(n1, *b);
            let (n2, s2, e2) = build_spec(n1, *b);
            let n = set_edge(n2, e1, Edge::Next(s2 as usize));
            assert forall|i: int| 0 <= i < n.len() implies (#[trigger] n[i]).id == i && edge_in(n[i].edge, n.len() as int) by {
                assert(n2[i].id == i && edge_in(n2[i].edge, n2.len() as int));
            }
        },
        Cmd::If(cond, a, b) => {
            let cid = ns.len() as int;
            let n0 = push_node(ns, Block::Condition(cond));
            assert forall|i: int| 0 <= i < n0.len() implies (#[trigger] n0[i]).id == i && edge_in(n0[i].edge, n0.len() as int) by {
                if i < ns.len() {
                    assert(ns[i].id == i && edge_in(ns[i].edge, ns.len() as int));
                }
            }
            lemma_build_shape(n0, *a);
            let (n1, ts, te) = build_spec(n0, *a);
            lemma_build_shape(n1, *b);
            let (n2, es, ee) = build_spec(n1, *b);
            let after = n2.len() as int;
            let n3 = push_node(n2, Block::Skip);
            let n4 = set_edge(n3, cid, Edge::If { true_branch: ts as usize, false_branch: es as usize });
            let n5 = set_edge(n4, te, Edge::Next(after as usize));
            let n = set_edge(n5, ee, Edge::Next(after as usize));
            assert(n1[cid].block == n0[cid].block);
            assert forall|i: int| 0 <= i < n.len() implies (#[trigger] n[i]).id == i && edge_in(n[i].edge, n.len() as int) by {
                if i < n2.len() {
                    assert(n2[i].id == i && edge_in(n2[i].edge, n2.len() as int));
                }
            }
            assert forall|i: int| 0 <= i < ns.len() implies (#[trigger] n[i]).block == ns[i].block by {
                assert(n1[i].block == n0[i].block);
            }
        },
        Cmd::While(cond, body) => {
            let cid = ns.len() as int;
            let n0 = push_node(ns, Block::Condition(cond));
            assert forall|i: int| 0 <= i < n0.len() implies (#[trigger] n0[i]).id == i && edge_in(n0[i].edge, n0.len() as int) by {
                if i < ns.len() {
                    assert(ns[i].id == i && edge_in(ns[i].edge, ns.len() as int));
                }
            }
            lemma_build_shape(n0, *body);
            let (n1, bs, be) = build_spec(n0, *body);
            let after = n1.len() as int;
            let n2 = push_node(n1, Block::Skip);
            let n3 = set_edge(n2, cid, Edge::If { true_branch: bs as usize, false_branch: after as usize });
            let n = set_edge(n3, be, Edge::Next(cid as usize));
            assert forall|i: int| 0 <= i < n.len() implies (#[trigger] n[i]).id == i && edge_in(n[i].edge, n.len() as int) by {
                if i < n1.len() {
                    assert(n1[i].id == i && edge_in(n1[i].edge, n1.len() as int));
                }
            }
            assert forall|i: int| 0 <= i < ns.len() implies (#[trigger] n[i]).block == ns[i].block by {
                assert(n1[i].block == n0[i].block);
            }
        },
    }
}

/// Building leaves the nodes already there as they were, and the last node
/// of a command's graph is a skip or an assignment, and the only new node,
/// with no edge yet.
pub proof fn lemma_build_frame(ns: Seq<Node>, c: Cmd)
    requires
        nodes_wf(ns),
        ns.len() + cmd_nodes(c) <= usize::MAX,
    ensures
        ({
            let (n, s, e) = build_spec(ns, c);
            &&& forall|i: int| 0 <= i < ns.len() ==> #[trigger] n[i] == ns[i]
            &&& n[e].edge == Edge::End
            &&& !(n[e].block is Condition)
            &&& forall|i: int| ns.len() <= i < n.len() && (#[trigger] n[i]).edge == Edge::End ==> i == e
        }),
    decreases c,
{
    lemma_build_shape(ns, c);
    match c {
        Cmd::Skip | Cmd::Assign(_, _) => {},
        Cmd::Sequence(a, b) => {
            lemma_build_shape(ns, *a);
            lemma_build_frame(ns, *a);
            let (n1, s1, e1) = build_spec(ns, *a);
            lemma_build_shape(n1, *b);
            lemma_build_frame(n1, *b);
            let (n2, s2, e2) = build_spec(n1, *b);
            assert forall|i: int| 0 <= i < ns.len() implies #[trigger] build_spec(ns, c).0[i] == ns[i] by {
                assert(n2[i] == n1[i]);
            }
        },
        Cmd::If(cond, a, b) => {
            let n0 = push_node(ns, Block::Condition(cond));
            assert(nodes_wf(n0)) by {
                assert forall|i: int| 0 <= i < n0.len() implies (#[trigger] n0[i]).id == i && edge_in(n0[i].edge, n0.len() as int) by {
                    if i < ns.len() {
                        assert(ns[i].id == i && edge_in(ns[i].edge, ns.len() as int));
                    }
                }
            }
            lemma_build_shape(n0, *a);
            lemma_build_frame(n0, *a);
            let (n1, ts, te) = build_spec(n0, *a);
            lemma_build_shape(n1, *b);
            lemma_build_frame(n1, *b);
            let (n2, es, ee) = build_spec(n1, *b);
            assert forall|i: int| 0 <= i < ns.len() implies #[trigger] build_spec(ns, c).0[i] == ns[i] by {
                assert(n2[i] == n1[i]);
                assert(n1[i] == n0[i]);
            }
        },
        Cmd::While(cond, body) => {
            let n0 = push_node(ns, Block::Condition(cond));
            assert(nodes_wf(n0)) by {
                assert forall|i: int| 0 <= i < n0.len() implies (#[trigger] n0[i]).id == i && edge_in(n0[i].edge, n0.len() as int) by {
                    if i < ns.len() {
                        assert(ns[i].id == i && edge_in(ns[i].edge, ns.len() as int));
                    }
                }
            }
            lemma_build_shape(n0, *body);
            lemma_build_frame(n0, *body);
            let (n1, bs, be) = build_spec(n0, *body);
            assert forall|i: int| 0 <= i < ns.len() implies #[trigger] build_spec(ns, c).0[i] == ns[i] by {
                assert(n1[i] == n0[i]);
            }
        },
    }
}

/// The graph of a program is well formed, and its exit is its only node
/// without an edge out.
pub proof fn lemma_program_cfg_wf(p: Program)
    requires
        cmd_nodes(p.body) <= usize::MAX,
    ensures
        program_cfg(p).wf(),
        ends_only_at_exit(program_cfg(p)),
{
    lemma_build_shape(Seq::empty(), p.body);
    lemma_build_frame(Seq::empty(), p.body);
}

/// Every node with a two-way edge holds a condition, and every condition
/// node has a two-way edge or none yet.
pub open spec fn branches_at_conditions(ns: Seq<Node>) -> bool {
    forall|i: int| 0 <= i < ns.len() ==> {
        &&& ((#[trigger] ns[i]).edge is If ==> ns[i].block is Condition)
        &&& (ns[i].block is Condition ==> ns[i].edge is If || ns[i].edge == Edge::End)
    }
}

/// Building keeps two-way edges at condition nodes.
proof fn lemma_build_branches(ns: Seq<Node>, c: Cmd)
    requires
        nodes_wf(ns),
        ns.len() + cmd_nodes(c) <= usize::MAX,
        branches_at_conditions(ns),
    ensures
        branches_at_conditions(build_spec(ns, c).0),
    decreases c,
{
    lemma_build_shape(ns, c);
    match c {
        Cmd::Skip | Cmd::Assign(_, _) => {
            let n = build_spec(ns, c).0;
            assert forall|i: int| 0 <= i < n.len() implies
                ((#[trigger] n[i]).edge is If ==> n[i].block is Condition)
                && (n[i].block is Condition ==> n[i].edge is If || n[i].edge == Edge::End) by {
                if i < ns.len() {
                    assert(n[i] == ns[i]);
                }
            }
        },
        Cmd::Sequence(a, b) => {
            lemma_build_shape(ns, *a);
            lemma_build_branches(ns, *a);
            lemma_build_frame(ns, *a);
            let (n1, s1, e1) = build_spec(ns, *a);
            lemma_build_shape(n1, *b);
            lemma_build_frame(n1, *b);
            lemma_build_branches(n1, *b);
            let (n2, s2, e2) = build_spec(n1, *b);
            assert(n2[e1] == n1[e1]);
            let n = set_edge(n2, e1, Edge::Next(s2 as usize));
            assert forall|i: int| 0 <= i < n.len() implies
                ((#[trigger] n[i]).edge is If ==> n[i].block is Condition)
                && (n[i].block is Condition ==> n[i].edge is If || n[i].edge == Edge::End) by {
                assert(n2[i].edge is If ==> n2[i].block is Condition);
            }
        },
        Cmd::If(cond, a, b) => {
            let cid = ns.len() as int;
            let n0 = push_node(ns, Block::Condition(cond));
            assert(nodes_wf(n0)) by {
                assert forall|i: int| 0 <= i < n0.len() implies (#[trigger] n0[i]).id == i && edge_in(n0[i].edge, n0.len() as int) by {
                    if i < ns.len() {
                        assert(ns[i].id == i && edge_in(ns[i].edge, ns.len() as int));
                    }
                }
            }
            assert(branches_at_conditions(n0)) by {
                assert forall|i: int| 0 <= i < n0.len() implies
                    ((#[trigger] n0[i]).edge is If ==> n0[i].block is Condition)
                    && (n0[i].block is Condition ==> n0[i].edge is If || n0[i].edge == Edge::End) by {
                    if i < ns.len() {
                        assert(n0[i] == ns[i]);
                    }
                }
            }
            lemma_build_shape(n0, *a);
            lemma_build_frame(n0, *a);
            lemma_build_branches(n0, *a);
            let (n1, ts, te) = build_spec(n0, *a);
            lemma_build_shape(n1, *b);
            lemma_build_frame(n1, *b);
            lemma_build_branches(n1, *b);
            let (n2, es, ee) = build_spec(n1, *b);
            let after = n2.len() as int;
            let n3 = push_node(n2, Block::Skip);
            let n4 = set_edge(n3, cid, Edge::If { true_branch: ts as usize, false_branch: es as usize });
            let n5 = set_edge(n4, te, Edge::Next(after as usize));
            let n = set_edge(n5, ee, Edge::Next(after as usize));
            assert(n2[cid] == n1[cid] && n1[cid] == n0[cid]);
            assert(n2[te] == n1[te]);
            assert forall|i: int| 0 <= i < n.len() implies
                ((#[trigger] n[i]).edge is If ==> n[i].block is Condition)
                && (n[i].block is Condition ==> n[i].edge is If || n[i].edge == Edge::End) by {
                if i < n2.len() {
                    assert(n2[i].edge is If ==> n2[i].block is Condition);
                }
            }
        },
        Cmd::While(cond, body) => {
            let cid = ns.len() as int;
            let n0 = push_node(ns, Block::Condition(cond));
            assert(nodes_wf(n0)) by {
                assert forall|i: int| 0 <= i < n0.len() implies (#[trigger] n0[i]).id == i && edge_in(n0[i].edge, n0.len() as int) by {
                    if i < ns.len() {
                        assert(ns[i].id == i && edge_in(ns[i].edge, ns.len() as int));
                    }
                }
            }
            assert(branches_at_conditions(n0)) by {
                assert forall|i: int| 0 <= i < n0.len() implies
                    ((#[trigger] n0[i]).edge is If ==> n0[i].block is Condition)
                    && (n0[i].block is Condition ==> n0[i].edge is If || n0[i].edge == Edge::End) by {
                    if i < ns.len() {
                        assert(n0[i] == ns[i]);
                    }
                }
            }
            lemma_build_shape(n0, *body);
            lemma_build_frame(n0, *body);
            lemma_build_branches(n0, *body);
            let (n1, bs, be) = build_spec(n0, *body);
            let after = n1.len() as int;
            let n2 = push_node(n1, Block::Skip);
            let n3 = set_edge(n2, cid, Edge::If { true_branch: bs as usize, false_branch: after as usize });
            let n = set_edge(n3, be, Edge::Next(cid as usize));
            assert(n1[cid] == n0[cid]);
            assert forall|i: int| 0 <= i < n.len() implies
                ((#[trigger] n[i]).edge is If ==> n[i].block is Condition)
                && (n[i].block is Condition ==> n[i].edge is If || n[i].edge == Edge::End) by {
                if i < n1.len() {
                    assert(n1[i].edge is If ==> n1[i].block is Condition);
                }
            }
        },
    }
}

/// In the graph of a program a node has a two-way edge exactly when its
/// block is a condition.
pub proof fn lemma_program_cfg_branches(p: Program)
    requires
        cmd_nodes(p.body) <= usize::MAX,
    ensures
        forall|k: int| 0 <= k < program_cfg(p).nodes.len() ==>
            ((#[trigger] program_cfg(p).nodes[k]).edge is If <==> program_cfg(p).nodes[k].block is Condition),
{
    lemma_build_shape(Seq::empty(), p.body);
    lemma_build_frame(Seq::empty(), p.body);
    lemma_build_branches(Seq::empty(), p.body);
    let g = program_cfg(p);
    assert forall|k: int| 0 <= k < g.nodes.len() implies
        ((#[trigger] g.nodes[k]).edge is If <==> g.nodes[k].block is Condition) by {
        if g.nodes[k].block is Condition && g.nodes[k].edge == Edge::End {
            assert(k == g.end as int);
        }
    }
}

fn new_node(nodes: &mut Vec<Node>, block: Block) -> (id: usize)
    ensures
        final(nodes)@ == push_node(old(nodes)@, block),
        id == old(nodes)@.len(),
{
    let id = nodes.len();
    nodes.push(Node { id, block, edge: Edge::End });
    id
}

fn build_command(nodes: &mut Vec<Node>, command: &Cmd) -> (r: (usize, usize))
    requires
        nodes_wf(old(nodes)@),
        old(nodes)@.len() + cmd_nodes(*command) <= usize::MAX,
    ensures
        build_spec(old(nodes)@, *command) == (final(nodes)@, r.0 as int, r.1 as int),
    decreases command,
{
    proof {
        lemma_build_shape(old(nodes)@, *command);
    }
    match command {
        Cmd::Skip => {
            let node = new_node(nodes, Block::Skip);
            (node, node)
        },
        Cmd::Assign(variable, expression) => {
            let node = new_node(nodes, Block::Assignment(variable.clone(), expression.copy()));
            (node, node)
        },
        Cmd::Sequence(first, second) => {
            proof {
                lemma_build_shape(nodes@, **first);
            }
            let (first_start, first_end) = build_command(nodes, first);
            proof {
                lemma_build_shape(nodes@, **second);
            }
            let (second_start, second_end) = build_command(nodes, second);
            nodes[first_end].edge = Edge::Next(second_start);
            (first_start, second_end)
        },
        Cmd::If(condition, then_command, else_command) => {
            let condition_node = new_node(nodes, Block::Condition(condition.copy()));
            proof {
                assert(nodes_wf(nodes@)) by {
                    assert forall|i: int| 0 <= i < nodes@.len() implies (#[trigger] nodes@[i]).id == i
                        && edge_in(nodes@[i].edge, nodes@.len() as int) by {
                        if i < old(nodes)@.len() {
                            assert(old(nodes)@[i].id == i && edge_in(old(nodes)@[i].edge, old(nodes)@.len() as int));
                        }
                    }
                }
                lemma_build_shape(nodes@, **then_command);
            }
            let (then_start, then_end) = build_command(nodes, then_command);
            proof {
                lemma_build_shape(nodes@, **else_command);
            }
            let (else_start, else_end) = build_command(nodes, else_command);
            let after_if = new_node(nodes, Block::Skip);
            nodes[condition_node].edge = Edge::If { true_branch: then_start, false_branch: else_start };
            nodes[then_end].edge = Edge::Next(after_if);
            nodes[else_end].edge = Edge::Next(after_if);
            (condition_node, after_if)
        },
        Cmd::While(condition, body) => {
            let condition_node = new_node(nodes, Block::Condition(condition.copy()));
            proof {
                assert(nodes_wf(nodes@)) by {
                    assert forall|i: int| 0 <= i < nodes@.len() implies (#[trigger] nodes@[i]).id == i
                        && edge_in(nodes@[i].edge, nodes@.len() as int) by {
                        if i < old(nodes)@.len() {
                            assert(old(nodes)@[i].id == i && edge_in(old(nodes)@[i].edge, old(nodes)@.len() as int));
                        }
                    }
                }
                lemma_build_shape(nodes@, **body);
            }
            let (body_start, body_end) = build_command(nodes, body);
            let after_loop = new_node(nodes, Block::Skip);
            nodes[condition_node].edge = Edge::If { true_branch: body_start, false_branch: after_loop };
            nodes[body_end].edge = Edge::Next(condition_node);
            (condition_node, after_loop)
        },
    }
}

/// The number of nodes that the graph of a command has, when it fits in a
/// `usize`.
pub fn count_cfg_nodes(command: &Cmd) -> (r: Option<usize>)
    ensures
        match r {
            Some(n) => n == cmd_nodes(*command),
            None => cmd_nodes(*command) > usize::MAX,
        },
    decreases command,
{
    match command {
        Cmd::Skip => Some(1),
        Cmd::Assign(_, _) => Some(1),
        Cmd::Sequence(a, b) => {
            let x = count_cfg_nodes(a)?;
            let y = count_cfg_nodes(b)?;
            x.checked_add(y)
        },
        Cmd::If(_, a, b) => {
            let x = count_cfg_nodes(a)?;
            let y = count_cfg_nodes(b)?;
            let z = x.checked_add(y)?;
            z.checked_add(2)
        },
        Cmd::While(_, b) => {
            let x = count_cfg_nodes(b)?;
            x.checked_add(2)
        },
    }
}

/// Builds the control-flow graph of a program: one node per skip and
/// assignment, a condition node and a join node per `if` and `while`.
pub fn build_cfg(program: &Program) -> (cfg: Cfg)
    requires
        cmd_nodes(program.body) <= usize::MAX,
    ensures
        cfg.wf(),
        cfg@ == program_cfg(*program),
        ends_only_at_exit(cfg@),
        build_spec(Seq::empty(), program.body) == (cfg.nodes@, cfg.start as int, cfg.end as int),
        cfg.nodes@.len() == cmd_nodes(program.body),
        forall|k: int| 0 <= k < cfg.nodes@.len() ==> ((#[trigger] cfg.nodes@[k]).edge is If <==> cfg.nodes@[k].block is Condition),
        forall|k: int|
            #![trigger connects(cfg.nodes@, cfg.start as int, k)]
            #![trigger connects(cfg.nodes@, k, cfg.end as int)]
            0 <= k < cfg.nodes@.len() ==> connects(cfg.nodes@, cfg.start as int, k) && connects(cfg.nodes@, k, cfg.end as int),
        cfg.input_var == program.input_var,
        cfg.output_var == program.output_var,
{
    let mut nodes: Vec<Node> = Vec::new();
    proof {
        lemma_build_shape(nodes@, program.body);
        lemma_build_frame(nodes@, program.body);
        lemma_program_cfg_branches(*program);
        lemma_program_cfg_connected(*program);
    }
    let (start, end) = build_command(&mut nodes, &program.body);
    let cfg = Cfg { nodes, start, end, input_var: program.input_var.clone(), output_var: program.output_var.clone() };
    proof {
        let g = program_cfg(*program);
        assert(cfg.nodes@ == g.nodes && cfg.start == g.start && cfg.end == g.end);
        assert forall|k: int|
            #![trigger connects(cfg.nodes@, cfg.start as int, k)]
            #![trigger connects(cfg.nodes@, k, cfg.end as int)]
            0 <= k < cfg.nodes@.len() implies connects(cfg.nodes@, cfg.start as int, k)
                && connects(cfg.nodes@, k, cfg.end as int) by {
            assert(connects(g.nodes, g.start as int, k));
        }
    }
    cfg
}

impl Clone for Block {
    fn clone(&self) -> (r: Block)
        ensures
            r == *self,
    {
        self.copy()
    }
}

impl Clone for Edge {
    fn clone(&self) -> (r: Edge)
        ensures
            r == *self,
    {
        self.copy()
    }
}

impl Clone for Node {
    fn clone(&self) -> (r: Node)
        ensures
            r == *self,
    {
        self.copy()
    }
}

impl Clone for Cfg {
    fn clone(&self) -> (r: Cfg)
        ensures
            r.nodes@ == self.nodes@,
            r.start == self.start,
            r.end == self.end,
            r.input_var == self.input_var,
            r.output_var == self.output_var,
    {
        self.copy()
    }
}

} // verus!
