//! The LLVM IR of a MiniImp program.
//!
//! The program becomes one function `@func` from `i64` to `i64`. Every
//! variable gets a stack slot `%x_ptr`, allocated in the entry block in the
//! order of the names; the input variable starts with the argument `%in` and
//! every other variable with 0. Each node of the control-flow graph becomes a
//! block `blockN` that loads what it reads into fresh temporaries `%tmpK`,
//! numbered in the order they are made, and branches as the graph's edge says.
//!
//! The code of each expression is a list of loads and LLVM operations, and
//! running it by the meaning of those operations gives the value that the
//! interpreter gives the expression (`lemma_expr_ir_computes`,
//! `lemma_bool_ir_computes`); each block stores what its assignment
//! computes, or branches to the true branch exactly when its condition
//! holds (`lemma_assignment_block_runs`, `lemma_condition_block_runs`).
use vstd::prelude::*;
use vstd::string::*;
use crate::common::text::{nat_text, int_text, text, push_text, push_usize_text, i64_text, same_text};
use crate::common::order::{strictly_sorted, names_of, insert_sorted, lemma_sorted_unique};
use crate::miniimp::ast::{BoolExpr, Cmd, Expr, Program};
use crate::miniimp::cfg::{Block, Edge, Node, build_cfg, cmd_nodes, count_cfg_nodes, program_cfg};
use crate::miniimp::dataflow::{expr_vars, bool_vars};
use crate::miniimp::eval::{expr_spec, bool_spec};
use crate::common::error::ErrorModel;

verus! {

/// The variables that a command assigns or reads.
pub open spec fn cmd_vars(c: Cmd) -> Set<Seq<char>>
    decreases c,
{
    match c {
        Cmd::Skip => Set::empty(),
        Cmd::Assign(x, e) => set![x@].union(expr_vars(e)),
        Cmd::Sequence(a, b) => cmd_vars(*a).union(cmd_vars(*b)),
        Cmd::If(b, x, y) => bool_vars(b).union(cmd_vars(*x)).union(cmd_vars(*y)),
        Cmd::While(b, body) => bool_vars(b).union(cmd_vars(*body)),
    }
}

/// The variables of a program: its input and output variables and those of
/// its body.
pub open spec fn program_vars(p: Program) -> Set<Seq<char>> {
    set![p.input_var@, p.output_var@].union(cmd_vars(p.body))
}

/// The variables of a program in the order of their names.
pub open spec fn sorted_variables(p: Program) -> Seq<Seq<char>> {
    choose|v: Seq<Seq<char>>| strictly_sorted(v) && v.to_set() == program_vars(p)
}

/// The stack slot of a variable.
pub open spec fn ptr_name(x: Seq<char>) -> Seq<char> {
    "%"@ + x + "_ptr"@
}

/// The temporary numbered `n`.
pub open spec fn tmp_name(n: nat) -> Seq<char> {
    "%tmp"@ + nat_text(n)
}

/// The label of node `n`.
pub open spec fn block_name(n: nat) -> Seq<char> {
    "block"@ + nat_text(n)
}

/// The line that loads the variable `x` into temporary `t`.
pub open spec fn load_line(t: nat, x: Seq<char>) -> Seq<char> {
    "  "@ + tmp_name(t) + " = load i64, ptr "@ + ptr_name(x) + "\n"@
}

/// The line that puts `op a, b` in temporary `t`.
pub open spec fn op_line(t: nat, op: Seq<char>, a: Seq<char>, b: Seq<char>) -> Seq<char> {
    "  "@ + tmp_name(t) + " = "@ + op + " "@ + a + ", "@ + b + "\n"@
}

/// The instruction of an arithmetic operator.
pub open spec fn arith_op(e: Expr) -> Seq<char> {
    match e {
        Expr::Add(_, _) => "add i64"@,
        Expr::Sub(_, _) => "sub i64"@,
        _ => "mul i64"@,
    }
}

/// The lines that compute an arithmetic expression when the next temporary
/// is `c`; the value that holds the result; and the next temporary after.
pub open spec fn expr_ir(e: Expr, c: nat) -> (Seq<char>, Seq<char>, nat)
    decreases e,
{
    match e {
        Expr::Int(n) => (Seq::empty(), int_text(n as int), c),
        Expr::Var(x) => (load_line(c, x@), tmp_name(c), c + 1),
        Expr::Add(a, b) | Expr::Sub(a, b) | Expr::Mul(a, b) => {
            let (ca, va, c1) = expr_ir(*a, c);
            let (cb, vb, c2) = expr_ir(*b, c1);
            (ca + cb + op_line(c2, arith_op(e), va, vb), tmp_name(c2), c2 + 1)
        },
    }
}

/// The lines that compute a boolean expression when the next temporary is
/// `c`; the value that holds the result; and the next temporary after.
pub open spec fn bool_ir(b: BoolExpr, c: nat) -> (Seq<char>, Seq<char>, nat)
    decreases b,
{
    match b {
        BoolExpr::True => (Seq::empty(), "true"@, c),
        BoolExpr::False => (Seq::empty(), "false"@, c),
        BoolExpr::Less(x, y) => {
            let (cx, vx, c1) = expr_ir(*x, c);
            let (cy, vy, c2) = expr_ir(*y, c1);
            (cx + cy + op_line(c2, "icmp slt i64"@, vx, vy), tmp_name(c2), c2 + 1)
        },
        BoolExpr::Not(x) => {
            let (cx, vx, c1) = bool_ir(*x, c);
            (cx + op_line(c1, "xor i1"@, vx, "true"@), tmp_name(c1), c1 + 1)
        },
        BoolExpr::And(x, y) => {
            let (cx, vx, c1) = bool_ir(*x, c);
            let (cy, vy, c2) = bool_ir(*y, c1);
            (cx + cy + op_line(c2, "and i1"@, vx, vy), tmp_name(c2), c2 + 1)
        },
    }
}

/// The lines that end a block by its edge, with the next temporary after:
/// the exit returns the output variable.
pub open spec fn edge_ir(e: Edge, out: Seq<char>, c: nat) -> (Seq<char>, nat) {
    match e {
        Edge::End => (load_line(c, out) + "  ret i64 "@ + tmp_name(c) + "\n"@, c + 1),
        Edge::Next(k) => ("  br label %"@ + block_name(k as nat) + "\n"@, c),
        Edge::If { true_branch, false_branch } => (
            "  br label %"@ + block_name(true_branch as nat) + " ; unused fallback to "@
                + block_name(false_branch as nat) + "\n"@,
            c,
        ),
    }
}

/// The block of a node, with the next temporary after. A condition with two
/// branches ends in a conditional branch on its value.
pub open spec fn node_ir(n: Node, out: Seq<char>, c: nat) -> (Seq<char>, nat) {
    let label = block_name(n.id as nat) + ":\n"@;
    match n.block {
        Block::Skip => {
            let (ec, c1) = edge_ir(n.edge, out, c);
            (label + ec, c1)
        },
        Block::Assignment(x, e) => {
            let (code, v, c1) = expr_ir(e, c);
            let (ec, c2) = edge_ir(n.edge, out, c1);
            (label + code + "  store i64 "@ + v + ", ptr "@ + ptr_name(x@) + "\n"@ + ec, c2)
        },
        Block::Condition(b) => {
            let (code, v, c1) = bool_ir(b, c);
            match n.edge {
                Edge::If { true_branch, false_branch } => (
                    label + code + "  br i1 "@ + v + ", label %"@ + block_name(true_branch as nat)
                        + ", label %"@ + block_name(false_branch as nat) + "\n"@,
                    c1,
                ),
                _ => {
                    let (ec, c2) = edge_ir(n.edge, out, c1);
                    (label + code + ec, c2)
                },
            }
        },
    }
}

// ---------------------------------------------------------------------------
// What the instructions of an expression compute

/// An operand of an instruction: a temporary, an integer constant, or an
/// `i1` constant.
pub enum IrOperand {
    Temp(nat),
    Const(int),
    Flag(bool),
}

/// An instruction of the code of an expression: a load of a variable's
/// slot into a temporary, or an operation on two operands into a
/// temporary.
pub enum IrInst {
    Load(nat, Seq<char>),
    Op(nat, Seq<char>, IrOperand, IrOperand),
}

/// How an operand is written.
pub open spec fn render_operand(o: IrOperand) -> Seq<char> {
    match o {
        IrOperand::Temp(t) => tmp_name(t),
        IrOperand::Const(n) => int_text(n),
        IrOperand::Flag(b) => if b { "true"@ } else { "false"@ },
    }
}

/// How an instruction is written: one line.
pub open spec fn render_inst(i: IrInst) -> Seq<char> {
    match i {
        IrInst::Load(t, x) => load_line(t, x),
        IrInst::Op(t, op, a, b) => op_line(t, op, render_operand(a), render_operand(b)),
    }
}

/// How a list of instructions is written, one line each, in order.
pub open spec fn render_insts(is: Seq<IrInst>) -> Seq<char>
    decreases is.len(),
{
    if is.len() == 0 {
        Seq::empty()
    } else {
        render_insts(is.drop_last()) + render_inst(is.last())
    }
}

/// The value of an operand, given the values of the temporaries (an `i1`
/// is 1 for true and 0 for false).
pub open spec fn operand_value(o: IrOperand, regs: Map<nat, int>) -> Option<int> {
    match o {
        IrOperand::Temp(t) => if regs.dom().contains(t) { Some(regs[t]) } else { None },
        IrOperand::Const(n) => Some(n),
        IrOperand::Flag(b) => Some(if b { 1int } else { 0int }),
    }
}

/// What an LLVM operation gives on two values: `add`, `sub` and `mul` on
/// `i64` (no value where the result leaves the range of `i64`, where
/// LLVM would wrap), the signed comparison `icmp slt`, and `xor` and `and`
/// on `i1`; no value for any other operation.
pub open spec fn op_value(op: Seq<char>, x: int, y: int) -> Option<int> {
    if op == "add i64"@ {
        if i64::MIN <= x + y <= i64::MAX { Some(x + y) } else { None }
    } else if op == "sub i64"@ {
        if i64::MIN <= x - y <= i64::MAX { Some(x - y) } else { None }
    } else if op == "mul i64"@ {
        if i64::MIN <= x * y <= i64::MAX { Some(x * y) } else { None }
    } else if op == "icmp slt i64"@ {
        Some(if x < y { 1int } else { 0int })
    } else if op == "xor i1"@ {
        Some(if x == y { 0int } else { 1int })
    } else if op == "and i1"@ {
        Some(if x == 1 && y == 1 { 1int } else { 0int })
    } else {
        None
    }
}

/// Running one instruction with the variables' values in `mem`.
pub open spec fn run_inst(i: IrInst, mem: Map<Seq<char>, i64>, regs: Map<nat, int>) -> Option<Map<nat, int>> {
    match i {
        IrInst::Load(t, x) => if mem.dom().contains(x) { Some(regs.insert(t, mem[x] as int)) } else { None },
        IrInst::Op(t, op, a, b) => match (operand_value(a, regs), operand_value(b, regs)) {
            (Some(x), Some(y)) => match op_value(op, x, y) {
                Some(v) => Some(regs.insert(t, v)),
                None => None,
            },
            _ => None,
        },
    }
}

/// Running a list of instructions in order.
pub open spec fn run_insts(is: Seq<IrInst>, mem: Map<Seq<char>, i64>, regs: Map<nat, int>) -> Option<Map<nat, int>>
    decreases is.len(),
{
    if is.len() == 0 {
        Some(regs)
    } else {
        match run_insts(is.drop_last(), mem, regs) {
            Some(r) => run_inst(is.last(), mem, r),
            None => None,
        }
    }
}

proof fn lemma_render_concat(a: Seq<IrInst>, b: Seq<IrInst>)
    ensures
        render_insts(a + b) == render_insts(a) + render_insts(b),
    decreases b.len(),
{
    if b.len() == 0 {
        assert(a + b =~= a);
    } else {
        lemma_render_concat(a, b.drop_last());
        assert((a + b).drop_last() =~= a + b.drop_last());
        assert(render_insts(a) + (render_insts(b.drop_last()) + render_inst(b.last()))
            =~= (render_insts(a) + render_insts(b.drop_last())) + render_inst(b.last()));
    }
}

proof fn lemma_run_concat(a: Seq<IrInst>, b: Seq<IrInst>, mem: Map<Seq<char>, i64>, regs: Map<nat, int>)
    ensures
        run_insts(a + b, mem, regs) == match run_insts(a, mem, regs) {
            Some(r) => run_insts(b, mem, r),
            None => None,
        },
    decreases b.len(),
{
    if b.len() == 0 {
        assert(a + b =~= a);
    } else {
        lemma_run_concat(a, b.drop_last(), mem, regs);
        assert((a + b).drop_last() =~= a + b.drop_last());
    }
}

proof fn lemma_push_inst(is: Seq<IrInst>, i: IrInst, mem: Map<Seq<char>, i64>, regs: Map<nat, int>)
    ensures
        render_insts(is.push(i)) == render_insts(is) + render_inst(i),
        run_insts(is.push(i), mem, regs) == match run_insts(is, mem, regs) {
            Some(r) => run_inst(i, mem, r),
            None => None,
        },
        render_insts(Seq::<IrInst>::empty()) == Seq::<char>::empty(),
        run_insts(Seq::<IrInst>::empty(), mem, regs) == Some(regs),
{
    assert(is.push(i).drop_last() =~= is);
}

/// Running the code of two operands and then one operation on their
/// values.
proof fn lemma_combine(
    ia: Seq<IrInst>,
    oa: IrOperand,
    c1: nat,
    ib: Seq<IrInst>,
    ob: IrOperand,
    c2: nat,
    c: nat,
    op: Seq<char>,
    mem: Map<Seq<char>, i64>,
    regs: Map<nat, int>,
    x: int,
    y: int,
    w: int,
)
    requires
        c <= c1 <= c2,
        temp_within(oa, c, c1),
        temp_within(ob, c1, c2),
        run_insts(ia, mem, regs) matches Some(r1) && keeps_below(regs, r1, c) && operand_value(oa, r1) == Some(x),
        run_insts(ib, mem, run_insts(ia, mem, regs)->Some_0) matches Some(r2)
            && keeps_below(run_insts(ia, mem, regs)->Some_0, r2, c1) && operand_value(ob, r2) == Some(y),
        op_value(op, x, y) == Some(w),
    ensures
        ({
            let is = (ia + ib).push(IrInst::Op(c2, op, oa, ob));
            &&& render_insts(is) == render_insts(ia) + render_insts(ib) + op_line(c2, op, render_operand(oa), render_operand(ob))
            &&& run_insts(is, mem, regs) matches Some(r3) && keeps_below(regs, r3, c)
                && operand_value(IrOperand::Temp(c2), r3) == Some(w)
        }),
{
    let r1 = run_insts(ia, mem, regs)->Some_0;
    let r2 = run_insts(ib, mem, r1)->Some_0;
    let inst = IrInst::Op(c2, op, oa, ob);
    lemma_render_concat(ia, ib);
    lemma_run_concat(ia, ib, mem, regs);
    lemma_push_inst(ia + ib, inst, mem, regs);
    if let IrOperand::Temp(t) = oa {
        assert(r1.dom().contains(t));
        assert(r2.dom().contains(t));
    }
    assert(operand_value(oa, r2) == Some(x));
    let r3 = r2.insert(c2, w);
    assert(run_insts((ia + ib).push(inst), mem, regs) == Some(r3));
    assert(keeps_below(regs, r1, c));
    assert(keeps_below(r1, r2, c1));
    assert forall|t: nat| t < c implies (regs.dom().contains(t) ==> (#[trigger] r3.dom().contains(t) && r3[t] == regs[t])) by {
        if regs.dom().contains(t) {
            assert(r1.dom().contains(t));
            assert(r2.dom().contains(t));
        }
    }
}

/// The instructions, result operand and next temporary that stand for the
/// code of an arithmetic expression.
spec fn expr_insts(e: Expr, c: nat) -> (Seq<IrInst>, IrOperand, nat)
    decreases e,
{
    match e {
        Expr::Int(n) => (Seq::empty(), IrOperand::Const(n as int), c),
        Expr::Var(x) => (Seq::<IrInst>::empty().push(IrInst::Load(c, x@)), IrOperand::Temp(c), c + 1),
        Expr::Add(a, b) | Expr::Sub(a, b) | Expr::Mul(a, b) => {
            let (ia, oa, c1) = expr_insts(*a, c);
            let (ib, ob, c2) = expr_insts(*b, c1);
            ((ia + ib).push(IrInst::Op(c2, arith_op(e), oa, ob)), IrOperand::Temp(c2), c2 + 1)
        },
    }
}

/// The instructions, result operand and next temporary that stand for the
/// code of a boolean expression.
spec fn bool_insts(b: BoolExpr, c: nat) -> (Seq<IrInst>, IrOperand, nat)
    decreases b,
{
    match b {
        BoolExpr::True => (Seq::empty(), IrOperand::Flag(true), c),
        BoolExpr::False => (Seq::empty(), IrOperand::Flag(false), c),
        BoolExpr::Less(x, y) => {
            let (ix, ox, c1) = expr_insts(*x, c);
            let (iy, oy, c2) = expr_insts(*y, c1);
            ((ix + iy).push(IrInst::Op(c2, "icmp slt i64"@, ox, oy)), IrOperand::Temp(c2), c2 + 1)
        },
        BoolExpr::Not(x) => {
            let (ix, ox, c1) = bool_insts(*x, c);
            (ix.push(IrInst::Op(c1, "xor i1"@, ox, IrOperand::Flag(true))), IrOperand::Temp(c1), c1 + 1)
        },
        BoolExpr::And(x, y) => {
            let (ix, ox, c1) = bool_insts(*x, c);
            let (iy, oy, c2) = bool_insts(*y, c1);
            ((ix + iy).push(IrInst::Op(c2, "and i1"@, ox, oy)), IrOperand::Temp(c2), c2 + 1)
        },
    }
}

/// Registers `r2` keep every temporary of `r1` below `c`.
spec fn keeps_below(r1: Map<nat, int>, r2: Map<nat, int>, c: nat) -> bool {
    forall|t: nat| t < c ==> (r1.dom().contains(t) ==> (#[trigger] r2.dom().contains(t) && r2[t] == r1[t]))
}

/// An operand that is a temporary at or after `c` and before `c2`.
spec fn temp_within(o: IrOperand, c: nat, c2: nat) -> bool {
    o matches IrOperand::Temp(t) ==> c <= t < c2
}

proof fn lemma_expr_insts(e: Expr, c: nat, mem: Map<Seq<char>, i64>, regs: Map<nat, int>, v: i64)
    requires
        expr_spec(mem, e) == Some(Ok::<i64, ErrorModel>(v)),
    ensures
        ({
            let (is, o, c2) = expr_insts(e, c);
            &&& expr_ir(e, c) == (render_insts(is), render_operand(o), c2)
            &&& c <= c2
            &&& temp_within(o, c, c2)
            &&& run_insts(is, mem, regs) matches Some(r2) && keeps_below(regs, r2, c)
                && operand_value(o, r2) == Some(v as int)
        }),
    decreases e,
{
    match e {
        Expr::Int(n) => {
            lemma_push_inst(Seq::empty(), IrInst::Load(c, Seq::empty()), mem, regs);
            assert(keeps_below(regs, regs, c));
        },
        Expr::Var(x) => {
            lemma_push_inst(Seq::empty(), IrInst::Load(c, x@), mem, regs);
            assert(Seq::<char>::empty() + load_line(c, x@) =~= load_line(c, x@));
            assert(keeps_below(regs, regs.insert(c, mem[x@] as int), c));
        },
        Expr::Add(a, b) | Expr::Sub(a, b) | Expr::Mul(a, b) => {
            let x = expr_spec(mem, *a)->Some_0->Ok_0;
            let y = expr_spec(mem, *b)->Some_0->Ok_0;
            lemma_expr_insts(*a, c, mem, regs, x);
            let (ia, oa, c1) = expr_insts(*a, c);
            let r1 = run_insts(ia, mem, regs)->Some_0;
            lemma_expr_insts(*b, c1, mem, r1, y);
            lemma_binary_insts(e, *a, *b, c, mem, regs, x, y, v);
        },
    }
}

/// The step of `lemma_expr_insts` for `+`, `-` and `*`, given what holds of
/// the operands.
proof fn lemma_binary_insts(e: Expr, a: Expr, b: Expr, c: nat, mem: Map<Seq<char>, i64>, regs: Map<nat, int>, x: i64, y: i64, v: i64)
    requires
        e == Expr::Add(Box::new(a), Box::new(b)) || e == Expr::Sub(Box::new(a), Box::new(b)) || e == Expr::Mul(Box::new(a), Box::new(b)),
        expr_spec(mem, a) == Some(Ok::<i64, ErrorModel>(x)),
        expr_spec(mem, b) == Some(Ok::<i64, ErrorModel>(y)),
        expr_spec(mem, e) == Some(Ok::<i64, ErrorModel>(v)),
        ({
            let (ia, oa, c1) = expr_insts(a, c);
            &&& expr_ir(a, c) == (render_insts(ia), render_operand(oa), c1)
            &&& c <= c1
            &&& temp_within(oa, c, c1)
            &&& run_insts(ia, mem, regs) matches Some(r1) && keeps_below(regs, r1, c)
                && operand_value(oa, r1) == Some(x as int)
            &&& ({
                let (ib, ob, c2) = expr_insts(b, c1);
                &&& expr_ir(b, c1) == (render_insts(ib), render_operand(ob), c2)
                &&& c1 <= c2
                &&& temp_within(ob, c1, c2)
                &&& run_insts(ib, mem, run_insts(ia, mem, regs)->Some_0) matches Some(r2)
                    && keeps_below(run_insts(ia, mem, regs)->Some_0, r2, c1)
                    && operand_value(ob, r2) == Some(y as int)
            })
        }),
    ensures
        ({
            let (is, o, c2) = expr_insts(e, c);
            &&& expr_ir(e, c) == (render_insts(is), render_operand(o), c2)
            &&& c <= c2
            &&& temp_within(o, c, c2)
            &&& run_insts(is, mem, regs) matches Some(r2) && keeps_below(regs, r2, c)
                && operand_value(o, r2) == Some(v as int)
        }),
{
    reveal_strlit("add i64");
    reveal_strlit("sub i64");
    reveal_strlit("mul i64");
    let (ia, oa, c1) = expr_insts(a, c);
    let (ib, ob, c2) = expr_insts(b, c1);
    assert("sub i64"@[0] != "add i64"@[0]);
    assert("mul i64"@[0] != "add i64"@[0]);
    assert("mul i64"@[0] != "sub i64"@[0]);
    if e is Add {
        assert(arith_op(e) == "add i64"@);
        assert(v == x + y);
    } else if e is Sub {
        assert(arith_op(e) == "sub i64"@);
        assert(v == x - y);
    } else {
        assert(arith_op(e) == "mul i64"@);
        assert(v == x * y);
    }
    assert(op_value(arith_op(e), x as int, y as int) == Some(v as int));
    lemma_combine(ia, oa, c1, ib, ob, c2, c, arith_op(e), mem, regs, x as int, y as int, v as int);
}

proof fn lemma_bool_insts(b: BoolExpr, c: nat, mem: Map<Seq<char>, i64>, regs: Map<nat, int>, v: bool)
    requires
        bool_spec(mem, b) == Some(Ok::<bool, ErrorModel>(v)),
    ensures
        ({
            let (is, o, c2) = bool_insts(b, c);
            &&& bool_ir(b, c) == (render_insts(is), render_operand(o), c2)
            &&& c <= c2
            &&& temp_within(o, c, c2)
            &&& run_insts(is, mem, regs) matches Some(r2) && keeps_below(regs, r2, c)
                && operand_value(o, r2) == Some(if v { 1int } else { 0int })
        }),
    decreases b,
{
    reveal_strlit("icmp slt i64");
    reveal_strlit("xor i1");
    reveal_strlit("and i1");
    reveal_strlit("add i64");
    reveal_strlit("sub i64");
    reveal_strlit("mul i64");
    assert("icmp slt i64"@[0] != "add i64"@[0] && "icmp slt i64"@[0] != "sub i64"@[0] && "icmp slt i64"@[0] != "mul i64"@[0]);
    assert("xor i1"@[0] != "add i64"@[0] && "xor i1"@[0] != "sub i64"@[0] && "xor i1"@[0] != "mul i64"@[0]
        && "xor i1"@[0] != "icmp slt i64"@[0]);
    assert("and i1"@[1] != "add i64"@[1] && "and i1"@[0] != "sub i64"@[0] && "and i1"@[0] != "mul i64"@[0]
        && "and i1"@[0] != "icmp slt i64"@[0] && "and i1"@[0] != "xor i1"@[0]);
    match b {
        BoolExpr::True | BoolExpr::False => {
            lemma_push_inst(Seq::empty(), IrInst::Load(c, Seq::empty()), mem, regs);
            assert(keeps_below(regs, regs, c));
        },
        BoolExpr::Less(x, y) => {
            let vx = expr_spec(mem, *x)->Some_0->Ok_0;
            let vy = expr_spec(mem, *y)->Some_0->Ok_0;
            let (ix, ox, c1) = expr_insts(*x, c);
            let (iy, oy, c2) = expr_insts(*y, c1);
            lemma_expr_insts(*x, c, mem, regs, vx);
            lemma_expr_insts(*y, c1, mem, run_insts(ix, mem, regs)->Some_0, vy);
            lemma_combine(ix, ox, c1, iy, oy, c2, c, "icmp slt i64"@, mem, regs, vx as int, vy as int, if v { 1int } else { 0int });
        },
        BoolExpr::Not(x) => {
            let vx = bool_spec(mem, *x)->Some_0->Ok_0;
            let (ix, ox, c1) = bool_insts(*x, c);
            lemma_bool_insts(*x, c, mem, regs, vx);
            let r1 = run_insts(ix, mem, regs)->Some_0;
            lemma_push_inst(Seq::empty(), IrInst::Load(c, Seq::empty()), mem, r1);
            assert(keeps_below(r1, r1, c1));
            assert(ix + Seq::<IrInst>::empty() =~= ix);
            lemma_combine(ix, ox, c1, Seq::empty(), IrOperand::Flag(true), c1, c, "xor i1"@, mem, regs,
                if vx { 1int } else { 0int }, 1int, if v { 1int } else { 0int });
            assert(render_insts(ix) + Seq::<char>::empty() =~= render_insts(ix));
        },
        BoolExpr::And(x, y) => {
            let vx = bool_spec(mem, *x)->Some_0->Ok_0;
            let vy = bool_spec(mem, *y)->Some_0->Ok_0;
            let (ix, ox, c1) = bool_insts(*x, c);
            let (iy, oy, c2) = bool_insts(*y, c1);
            lemma_bool_insts(*x, c, mem, regs, vx);
            lemma_bool_insts(*y, c1, mem, run_insts(ix, mem, regs)->Some_0, vy);
            lemma_combine(ix, ox, c1, iy, oy, c2, c, "and i1"@, mem, regs,
                if vx { 1int } else { 0int }, if vy { 1int } else { 0int }, if v { 1int } else { 0int });
        },
    }
}

/// The code of an arithmetic expression computes its value: it is a list
/// of loads and LLVM operations which, run with the variables' values,
/// leave in its result operand the value that the interpreter gives the
/// expression.
pub proof fn lemma_expr_ir_computes(e: Expr, c: nat, mem: Map<Seq<char>, i64>, v: i64)
    requires
        expr_spec(mem, e) == Some(Ok::<i64, ErrorModel>(v)),
    ensures
        exists|is: Seq<IrInst>, o: IrOperand, regs: Map<nat, int>|
            #![trigger render_insts(is), operand_value(o, regs)]
            render_insts(is) == expr_ir(e, c).0 && render_operand(o) == expr_ir(e, c).1
                && run_insts(is, mem, Map::empty()) == Some(regs) && operand_value(o, regs) == Some(v as int),
{
    lemma_expr_insts(e, c, mem, Map::empty(), v);
    let (is, o, c2) = expr_insts(e, c);
    let regs = run_insts(is, mem, Map::empty())->Some_0;
    assert(render_insts(is) == expr_ir(e, c).0 && render_operand(o) == expr_ir(e, c).1
        && run_insts(is, mem, Map::empty()) == Some(regs) && operand_value(o, regs) == Some(v as int));
}

/// The code of a boolean expression computes its truth value: it is a list
/// of loads and LLVM operations which, run with the variables' values,
/// leave in its result operand the `i1` (1 for true, 0 for false) of the
/// value that the interpreter gives the expression. In particular the
/// value of `false` is the `i1` constant `false`.
pub proof fn lemma_bool_ir_computes(b: BoolExpr, c: nat, mem: Map<Seq<char>, i64>, v: bool)
    requires
        bool_spec(mem, b) == Some(Ok::<bool, ErrorModel>(v)),
    ensures
        exists|is: Seq<IrInst>, o: IrOperand, regs: Map<nat, int>|
            #![trigger render_insts(is), operand_value(o, regs)]
            render_insts(is) == bool_ir(b, c).0 && render_operand(o) == bool_ir(b, c).1
                && run_insts(is, mem, Map::empty()) == Some(regs)
                && operand_value(o, regs) == Some(if v { 1int } else { 0int }),
{
    lemma_bool_insts(b, c, mem, Map::empty(), v);
    let (is, o, c2) = bool_insts(b, c);
    let regs = run_insts(is, mem, Map::empty())->Some_0;
    assert(render_insts(is) == bool_ir(b, c).0 && render_operand(o) == bool_ir(b, c).1
        && run_insts(is, mem, Map::empty()) == Some(regs)
        && operand_value(o, regs) == Some(if v { 1int } else { 0int }));
}

/// The block of an assignment node runs it: it computes the value that the
/// interpreter gives the expression and stores it in the variable's slot
/// before it follows the node's edge.
pub proof fn lemma_assignment_block_runs(n: Node, out: Seq<char>, c: nat, mem: Map<Seq<char>, i64>, x: String, e: Expr, v: i64)
    requires
        n.block == Block::Assignment(x, e),
        expr_spec(mem, e) == Some(Ok::<i64, ErrorModel>(v)),
    ensures
        exists|is: Seq<IrInst>, o: IrOperand, regs: Map<nat, int>|
            #![trigger render_insts(is), operand_value(o, regs)]
            node_ir(n, out, c).0 == block_name(n.id as nat) + ":\n"@ + render_insts(is) + "  store i64 "@
                + render_operand(o) + ", ptr "@ + ptr_name(x@) + "\n"@ + edge_ir(n.edge, out, expr_ir(e, c).2).0
            && run_insts(is, mem, Map::empty()) == Some(regs) && operand_value(o, regs) == Some(v as int),
{
    lemma_expr_insts(e, c, mem, Map::empty(), v);
    let (is, o, c1) = expr_insts(e, c);
    let regs = run_insts(is, mem, Map::empty())->Some_0;
    assert(node_ir(n, out, c).0 == block_name(n.id as nat) + ":\n"@ + render_insts(is) + "  store i64 "@
        + render_operand(o) + ", ptr "@ + ptr_name(x@) + "\n"@ + edge_ir(n.edge, out, expr_ir(e, c).2).0);
    assert(run_insts(is, mem, Map::empty()) == Some(regs) && operand_value(o, regs) == Some(v as int));
}

/// The block of a condition node with two branches runs it: it computes
/// the condition's `i1` (1 when the interpreter finds it true) and ends in
/// `br i1` on it, whose first label (where LLVM goes on 1) is the node's
/// true branch and whose second label is its false branch.
pub proof fn lemma_condition_block_runs(
    n: Node,
    out: Seq<char>,
    c: nat,
    mem: Map<Seq<char>, i64>,
    b: BoolExpr,
    v: bool,
    true_branch: usize,
    false_branch: usize,
)
    requires
        n.block == Block::Condition(b),
        n.edge == (Edge::If { true_branch, false_branch }),
        bool_spec(mem, b) == Some(Ok::<bool, ErrorModel>(v)),
    ensures
        exists|is: Seq<IrInst>, o: IrOperand, regs: Map<nat, int>|
            #![trigger render_insts(is), operand_value(o, regs)]
            node_ir(n, out, c).0 == block_name(n.id as nat) + ":\n"@ + render_insts(is) + "  br i1 "@
                + render_operand(o) + ", label %"@ + block_name(true_branch as nat) + ", label %"@
                + block_name(false_branch as nat) + "\n"@
            && run_insts(is, mem, Map::empty()) == Some(regs)
            && operand_value(o, regs) == Some(if v { 1int } else { 0int }),
{
    lemma_bool_insts(b, c, mem, Map::empty(), v);
    let (is, o, c1) = bool_insts(b, c);
    let regs = run_insts(is, mem, Map::empty())->Some_0;
    assert(node_ir(n, out, c).0 == block_name(n.id as nat) + ":\n"@ + render_insts(is) + "  br i1 "@
        + render_operand(o) + ", label %"@ + block_name(true_branch as nat) + ", label %"@
        + block_name(false_branch as nat) + "\n"@);
    assert(run_insts(is, mem, Map::empty()) == Some(regs)
        && operand_value(o, regs) == Some(if v { 1int } else { 0int }));
}

/// The blocks of a list of nodes, in order, with the next temporary after.
pub open spec fn nodes_ir(ns: Seq<Node>, out: Seq<char>, c: nat) -> (Seq<char>, nat)
    decreases ns.len(),
{
    if ns.len() == 0 {
        (Seq::empty(), c)
    } else {
        let (a, c1) = nodes_ir(ns.drop_last(), out, c);
        let (b, c2) = node_ir(ns.last(), out, c1);
        (a + b, c2)
    }
}

/// The stack slots of the variables.
pub open spec fn allocas(vars: Seq<Seq<char>>) -> Seq<char>
    decreases vars.len(),
{
    if vars.len() == 0 {
        Seq::empty()
    } else {
        allocas(vars.drop_last()) + "  "@ + ptr_name(vars.last()) + " = alloca i64\n"@
    }
}

/// The first values of the variables: the argument for the input variable,
/// 0 for the others.
pub open spec fn initial_stores(vars: Seq<Seq<char>>, input: Seq<char>) -> Seq<char>
    decreases vars.len(),
{
    if vars.len() == 0 {
        Seq::empty()
    } else {
        let first = if vars.last() == input { "  store i64 %in, ptr "@ } else { "  store i64 0, ptr "@ };
        initial_stores(vars.drop_last(), input) + first + ptr_name(vars.last()) + "\n"@
    }
}

/// How many temporaries the IR of a program uses.
pub open spec fn llvm_temp_count(p: Program) -> nat {
    nodes_ir(program_cfg(p).nodes, p.output_var@, 0).1
}

/// The first two lines of the IR: the function's header and its entry
/// label.
pub open spec fn ir_header() -> Seq<char> {
    "define i64 @func(i64 %in) {\n"@ + "entry:\n"@
}

/// The LLVM IR of a program.
pub open spec fn llvm_ir_spec(p: Program) -> Seq<char> {
    let g = program_cfg(p);
    let vars = sorted_variables(p);
    "define i64 @func(i64 %in) {\n"@ + "entry:\n"@ + allocas(vars) + initial_stores(vars, p.input_var@)
        + "  br label %"@ + block_name(g.start as nat) + "\n"@ + nodes_ir(g.nodes, p.output_var@, 0).0
        + "}\n"@
}

/// Adds the variables of an arithmetic expression to a sorted list.
fn collect_variables_from_expr(expression: &Expr, variables: &mut Vec<String>)
    requires
        strictly_sorted(names_of(old(variables)@)),
    ensures
        strictly_sorted(names_of(final(variables)@)),
        names_of(final(variables)@).to_set() == names_of(old(variables)@).to_set().union(expr_vars(*expression)),
    decreases expression,
{
    match expression {
        Expr::Var(variable) => {
            insert_sorted(variables, variable);
        },
        Expr::Int(_) => {},
        Expr::Add(left, right) | Expr::Sub(left, right) | Expr::Mul(left, right) => {
            collect_variables_from_expr(left, variables);
            collect_variables_from_expr(right, variables);
        },
    }
    assert(names_of(variables@).to_set() =~= names_of(old(variables)@).to_set().union(expr_vars(*expression)));
}

/// Adds the variables of a boolean expression to a sorted list.
fn collect_variables_from_bool(condition: &BoolExpr, variables: &mut Vec<String>)
    requires
        strictly_sorted(names_of(old(variables)@)),
    ensures
        strictly_sorted(names_of(final(variables)@)),
        names_of(final(variables)@).to_set() == names_of(old(variables)@).to_set().union(bool_vars(*condition)),
    decreases condition,
{
    match condition {
        BoolExpr::True => {},
        BoolExpr::False => {},
        BoolExpr::And(left, right) => {
            collect_variables_from_bool(left, variables);
            collect_variables_from_bool(right, variables);
        },
        BoolExpr::Not(inner) => {
            collect_variables_from_bool(inner, variables);
        },
        BoolExpr::Less(left, right) => {
            collect_variables_from_expr(left, variables);
            collect_variables_from_expr(right, variables);
        },
    }
    assert(names_of(variables@).to_set() =~= names_of(old(variables)@).to_set().union(bool_vars(*condition)));
}

/// Adds the variables of a command to a sorted list.
fn collect_variables_from_cmd(command: &Cmd, variables: &mut Vec<String>)
    requires
        strictly_sorted(names_of(old(variables)@)),
    ensures
        strictly_sorted(names_of(final(variables)@)),
        names_of(final(variables)@).to_set() == names_of(old(variables)@).to_set().union(cmd_vars(*command)),
    decreases command,
{
    match command {
        Cmd::Skip => {},
        Cmd::Assign(variable, expression) => {
            insert_sorted(variables, variable);
            collect_variables_from_expr(expression, variables);
        },
        Cmd::Sequence(first, second) => {
            collect_variables_from_cmd(first, variables);
            collect_variables_from_cmd(second, variables);
        },
        Cmd::If(condition, then_command, else_command) => {
            collect_variables_from_bool(condition, variables);
            collect_variables_from_cmd(then_command, variables);
            collect_variables_from_cmd(else_command, variables);
        },
        Cmd::While(condition, body) => {
            collect_variables_from_bool(condition, variables);
            collect_variables_from_cmd(body, variables);
        },
    }
    assert(names_of(variables@).to_set() =~= names_of(old(variables)@).to_set().union(cmd_vars(*command)));
}

/// The variables of a program, in the order of their names.
fn collect_variables(program: &Program) -> (r: Vec<String>)
    ensures
        names_of(r@) == sorted_variables(*program),
        strictly_sorted(sorted_variables(*program)),
        sorted_variables(*program).to_set() == program_vars(*program),
{
    let mut variables: Vec<String> = Vec::new();
    assert(names_of(variables@) =~= Seq::<Seq<char>>::empty());
    insert_sorted(&mut variables, &program.input_var);
    insert_sorted(&mut variables, &program.output_var);
    collect_variables_from_cmd(&program.body, &mut variables);
    let ghost v = names_of(variables@);
    proof {
        assert(v.to_set() =~= program_vars(*program));
        let w = sorted_variables(*program);
        assert(strictly_sorted(w) && w.to_set() == program_vars(*program));
        lemma_sorted_unique(v, w);
    }
    variables
}

proof fn lemma_expr_ir_grows(e: Expr, c: nat)
    ensures
        expr_ir(e, c).2 >= c,
    decreases e,
{
    match e {
        Expr::Add(a, b) | Expr::Sub(a, b) | Expr::Mul(a, b) => {
            lemma_expr_ir_grows(*a, c);
            lemma_expr_ir_grows(*b, expr_ir(*a, c).2);
        },
        _ => {},
    }
}

proof fn lemma_bool_ir_grows(b: BoolExpr, c: nat)
    ensures
        bool_ir(b, c).2 >= c,
    decreases b,
{
    match b {
        BoolExpr::Less(x, y) => {
            lemma_expr_ir_grows(*x, c);
            lemma_expr_ir_grows(*y, expr_ir(*x, c).2);
        },
        BoolExpr::Not(x) => {
            lemma_bool_ir_grows(*x, c);
        },
        BoolExpr::And(x, y) => {
            lemma_bool_ir_grows(*x, c);
            lemma_bool_ir_grows(*y, bool_ir(*x, c).2);
        },
        _ => {},
    }
}

proof fn lemma_node_ir_grows(n: Node, out: Seq<char>, c: nat)
    ensures
        node_ir(n, out, c).1 >= c,
        match n.block {
            Block::Assignment(_, e) => node_ir(n, out, c).1 >= expr_ir(e, c).2,
            Block::Condition(b) => node_ir(n, out, c).1 >= bool_ir(b, c).2,
            Block::Skip => true,
        },
{
    match n.block {
        Block::Assignment(_, e) => lemma_expr_ir_grows(e, c),
        Block::Condition(b) => lemma_bool_ir_grows(b, c),
        Block::Skip => {},
    }
}

proof fn lemma_nodes_ir_prefix(ns: Seq<Node>, out: Seq<char>, i: int)
    requires
        0 <= i < ns.len(),
    ensures
        nodes_ir(ns.subrange(0, i + 1), out, 0)
            == ({
                let (a, c1) = nodes_ir(ns.subrange(0, i), out, 0);
                let (b, c2) = node_ir(ns[i], out, c1);
                (a + b, c2)
            }),
        nodes_ir(ns.subrange(0, i + 1), out, 0).1 <= nodes_ir(ns, out, 0).1,
    decreases ns.len(),
{
    assert(ns.subrange(0, i + 1).drop_last() =~= ns.subrange(0, i));
    if i + 1 < ns.len() {
        lemma_nodes_ir_prefix(ns.drop_last(), out, i);
        assert(ns.drop_last().subrange(0, i + 1) =~= ns.subrange(0, i + 1));
        lemma_node_ir_grows(ns.last(), out, nodes_ir(ns.drop_last(), out, 0).1);
    } else {
        assert(ns.subrange(0, i + 1) =~= ns);
    }
}

/// Appends the stack slot of a variable.
fn push_ptr_name(code: &mut String, variable: &String)
    ensures
        final(code)@ == old(code)@ + ptr_name(variable@),
{
    push_text(code, "%");
    push_text(code, variable.as_str());
    push_text(code, "_ptr");
    assert(final(code)@ =~= old(code)@ + ptr_name(variable@));
}

/// Appends the label of a node.
fn push_block_name(code: &mut String, id: usize)
    ensures
        final(code)@ == old(code)@ + block_name(id as nat),
{
    push_text(code, "block");
    push_usize_text(code, id);
    assert(final(code)@ =~= old(code)@ + block_name(id as nat));
}

/// A new temporary.
fn fresh_name(counter: &mut usize) -> (r: String)
    requires
        *old(counter) < usize::MAX,
    ensures
        r@ == tmp_name(*old(counter) as nat),
        *final(counter) == *old(counter) + 1,
{
    let mut name = text("%tmp");
    push_usize_text(&mut name, *counter);
    *counter = *counter + 1;
    name
}

/// Appends the line that puts `op a, b` in a new temporary, and gives the
/// temporary.
fn push_op_line(code: &mut String, counter: &mut usize, op: &str, a: &String, b: &String) -> (r: String)
    requires
        *old(counter) < usize::MAX,
    ensures
        final(code)@ == old(code)@ + op_line(*old(counter) as nat, op@, a@, b@),
        r@ == tmp_name(*old(counter) as nat),
        *final(counter) == *old(counter) + 1,
{
    let target = fresh_name(counter);
    push_text(code, "  ");
    push_text(code, target.as_str());
    push_text(code, " = ");
    push_text(code, op);
    push_text(code, " ");
    push_text(code, a.as_str());
    push_text(code, ", ");
    push_text(code, b.as_str());
    push_text(code, "\n");
    assert(final(code)@ =~= old(code)@ + op_line(*old(counter) as nat, op@, a@, b@));
    target
}

/// Appends the line that loads `variable` into a new temporary, and gives
/// the temporary.
fn push_load_line(code: &mut String, counter: &mut usize, variable: &String) -> (r: String)
    requires
        *old(counter) < usize::MAX,
    ensures
        final(code)@ == old(code)@ + load_line(*old(counter) as nat, variable@),
        r@ == tmp_name(*old(counter) as nat),
        *final(counter) == *old(counter) + 1,
{
    let target = fresh_name(counter);
    push_text(code, "  ");
    push_text(code, target.as_str());
    push_text(code, " = load i64, ptr ");
    push_ptr_name(code, variable);
    push_text(code, "\n");
    assert(final(code)@ =~= old(code)@ + load_line(*old(counter) as nat, variable@));
    target
}

/// Appends the lines that compute an arithmetic expression, and gives the
/// value that holds the result.
fn generate_expr(expression: &Expr, code: &mut String, counter: &mut usize) -> (value: String)
    requires
        expr_ir(*expression, *old(counter) as nat).2 <= usize::MAX,
    ensures
        final(code)@ == old(code)@ + expr_ir(*expression, *old(counter) as nat).0,
        value@ == expr_ir(*expression, *old(counter) as nat).1,
        *final(counter) == expr_ir(*expression, *old(counter) as nat).2,
    decreases expression,
{
    match expression {
        Expr::Int(number) => {
            assert(old(code)@ + Seq::<char>::empty() =~= old(code)@);
            i64_text(*number)
        },
        Expr::Var(variable) => {
            push_load_line(code, counter, variable)
        },
        Expr::Add(left, right) | Expr::Sub(left, right) | Expr::Mul(left, right) => {
            let ghost c0 = *counter as nat;
            proof {
                lemma_expr_ir_grows(**left, c0);
                lemma_expr_ir_grows(**right, expr_ir(**left, c0).2);
            }
            let left_value = generate_expr(left, code, counter);
            let right_value = generate_expr(right, code, counter);
            let op = match expression {
                Expr::Add(_, _) => "add i64",
                Expr::Sub(_, _) => "sub i64",
                _ => "mul i64",
            };
            proof {
                reveal_strlit("add i64");
                reveal_strlit("sub i64");
                reveal_strlit("mul i64");
            }
            assert(op@ == arith_op(*expression));
            let temp = push_op_line(code, counter, op, &left_value, &right_value);
            assert(final(code)@ =~= old(code)@ + expr_ir(*expression, *old(counter) as nat).0);
            temp
        },
    }
}

/// Appends the lines that compute a boolean expression, and gives the value
/// that holds the result.
fn generate_bool_expr(condition: &BoolExpr, code: &mut String, counter: &mut usize) -> (value: String)
    requires
        bool_ir(*condition, *old(counter) as nat).2 <= usize::MAX,
    ensures
        final(code)@ == old(code)@ + bool_ir(*condition, *old(counter) as nat).0,
        value@ == bool_ir(*condition, *old(counter) as nat).1,
        *final(counter) == bool_ir(*condition, *old(counter) as nat).2,
    decreases condition,
{
    let ghost c0 = *counter as nat;
    match condition {
        BoolExpr::True => {
            assert(old(code)@ + Seq::<char>::empty() =~= old(code)@);
            text("true")
        },
        BoolExpr::False => {
            assert(old(code)@ + Seq::<char>::empty() =~= old(code)@);
            text("false")
        },
        BoolExpr::Less(left, right) => {
            proof {
                lemma_expr_ir_grows(**left, c0);
                lemma_expr_ir_grows(**right, expr_ir(**left, c0).2);
            }
            let left_value = generate_expr(left, code, counter);
            let right_value = generate_expr(right, code, counter);
            let temp = push_op_line(code, counter, "icmp slt i64", &left_value, &right_value);
            assert(final(code)@ =~= old(code)@ + bool_ir(*condition, c0).0);
            temp
        },
        BoolExpr::Not(inner) => {
            proof {
                lemma_bool_ir_grows(**inner, c0);
            }
            let value = generate_bool_expr(inner, code, counter);
            let t = text("true");
            let temp = push_op_line(code, counter, "xor i1", &value, &t);
            assert(final(code)@ =~= old(code)@ + bool_ir(*condition, c0).0);
            temp
        },
        BoolExpr::And(left, right) => {
            proof {
                lemma_bool_ir_grows(**left, c0);
                lemma_bool_ir_grows(**right, bool_ir(**left, c0).2);
            }
            let left_value = generate_bool_expr(left, code, counter);
            let right_value = generate_bool_expr(right, code, counter);
            let temp = push_op_line(code, counter, "and i1", &left_value, &right_value);
            assert(final(code)@ =~= old(code)@ + bool_ir(*condition, c0).0);
            temp
        },
    }
}

/// Appends the lines that end a block by its edge.
fn generate_edge(edge: &Edge, output_var: &String, code: &mut String, counter: &mut usize)
    requires
        edge_ir(*edge, output_var@, *old(counter) as nat).1 <= usize::MAX,
    ensures
        final(code)@ == old(code)@ + edge_ir(*edge, output_var@, *old(counter) as nat).0,
        *final(counter) == edge_ir(*edge, output_var@, *old(counter) as nat).1,
{
    match edge {
        Edge::End => {
            let output_value = push_load_line(code, counter, output_var);
            push_text(code, "  ret i64 ");
            push_text(code, output_value.as_str());
            push_text(code, "\n");
        },
        Edge::Next(next_node) => {
            push_text(code, "  br label %");
            push_block_name(code, *next_node);
            push_text(code, "\n");
        },
        Edge::If { true_branch, false_branch } => {
            push_text(code, "  br label %");
            push_block_name(code, *true_branch);
            push_text(code, " ; unused fallback to ");
            push_block_name(code, *false_branch);
            push_text(code, "\n");
        },
    }
    assert(final(code)@ =~= old(code)@ + edge_ir(*edge, output_var@, *old(counter) as nat).0);
}

/// Appends the block of a node.
fn generate_node(node: &Node, output_var: &String, code: &mut String, counter: &mut usize)
    requires
        node_ir(*node, output_var@, *old(counter) as nat).1 <= usize::MAX,
    ensures
        final(code)@ == old(code)@ + node_ir(*node, output_var@, *old(counter) as nat).0,
        *final(counter) == node_ir(*node, output_var@, *old(counter) as nat).1,
{
    let ghost c0 = *counter as nat;
    proof {
        lemma_node_ir_grows(*node, output_var@, c0);
    }
    push_block_name(code, node.id);
    push_text(code, ":\n");
    let ghost after_label = code@;
    match &node.block {
        Block::Skip => {},
        Block::Assignment(variable, expression) => {
            let value = generate_expr(expression, code, counter);
            push_text(code, "  store i64 ");
            push_text(code, value.as_str());
            push_text(code, ", ptr ");
            push_ptr_name(code, variable);
            push_text(code, "\n");
        },
        Block::Condition(condition) => {
            let condition_value = generate_bool_expr(condition, code, counter);
            if let Edge::If { true_branch, false_branch } = &node.edge {
                push_text(code, "  br i1 ");
                push_text(code, condition_value.as_str());
                push_text(code, ", label %");
                push_block_name(code, *true_branch);
                push_text(code, ", label %");
                push_block_name(code, *false_branch);
                push_text(code, "\n");
                assert(final(code)@ =~= old(code)@ + node_ir(*node, output_var@, c0).0);
                return;
            }
        },
    }
    let ghost before_edge = code@;
    generate_edge(&node.edge, output_var, code, counter);
    assert(final(code)@ =~= old(code)@ + node_ir(*node, output_var@, c0).0);
}

/// The LLVM IR of a program.
pub fn generate_llvm_ir(program: &Program) -> (r: String)
    requires
        cmd_nodes(program.body) <= usize::MAX,
        llvm_temp_count(*program) <= usize::MAX,
    ensures
        r@ == llvm_ir_spec(*program),
        r@.subrange(0, ir_header().len() as int) == ir_header(),
        r@.subrange(ir_header().len() as int, (ir_header().len() + allocas(sorted_variables(*program)).len()) as int)
            == allocas(sorted_variables(*program)),
        r@.subrange(r@.len() - 2, r@.len() as int) == "}\n"@,
        strictly_sorted(sorted_variables(*program)),
        sorted_variables(*program).to_set() == program_vars(*program),
{
    proof {
        reveal_strlit("}\n");
        reveal_strlit("define i64 @func(i64 %in) {\n");
        reveal_strlit("entry:\n");
    }
    let cfg = build_cfg(program);
    let ghost g = program_cfg(*program);
    assert(cfg@ == g);
    let variables = collect_variables(program);
    let ghost vars = names_of(variables@);
    let mut code = text("define i64 @func(i64 %in) {\n");
    push_text(&mut code, "entry:\n");
    let ghost header = code@;
    let mut i: usize = 0;
    while i < variables.len()
        invariant
            i <= variables@.len(),
            vars == names_of(variables@),
            code@ == header + allocas(vars.subrange(0, i as int)),
        decreases variables@.len() - i,
    {
        assert(vars.subrange(0, i + 1).drop_last() =~= vars.subrange(0, i as int));
        push_text(&mut code, "  ");
        push_ptr_name(&mut code, &variables[i]);
        push_text(&mut code, " = alloca i64\n");
        i = i + 1;
        assert(code@ =~= header + allocas(vars.subrange(0, i as int)));
    }
    assert(vars.subrange(0, vars.len() as int) =~= vars);
    let ghost with_slots = code@;
    let mut i: usize = 0;
    while i < variables.len()
        invariant
            i <= variables@.len(),
            vars == names_of(variables@),
            cfg.input_var@ == program.input_var@,
            code@ == with_slots + initial_stores(vars.subrange(0, i as int), program.input_var@),
        decreases variables@.len() - i,
    {
        assert(vars.subrange(0, i + 1).drop_last() =~= vars.subrange(0, i as int));
        if same_text(&variables[i], &cfg.input_var) {
            push_text(&mut code, "  store i64 %in, ptr ");
        } else {
            push_text(&mut code, "  store i64 0, ptr ");
        }
        push_ptr_name(&mut code, &variables[i]);
        push_text(&mut code, "\n");
        i = i + 1;
        assert(code@ =~= with_slots + initial_stores(vars.subrange(0, i as int), program.input_var@));
    }
    assert(vars.subrange(0, vars.len() as int) =~= vars);
    push_text(&mut code, "  br label %");
    push_block_name(&mut code, cfg.start);
    push_text(&mut code, "\n");
    let ghost before_blocks = code@;
    let mut counter: usize = 0;
    let mut k: usize = 0;
    assert(g.nodes.subrange(0, 0) =~= Seq::<Node>::empty());
    while k < cfg.nodes.len()
        invariant
            k <= cfg.nodes@.len(),
            cfg@ == g,
            g == program_cfg(*program),
            llvm_temp_count(*program) <= usize::MAX,
            code@ == before_blocks + nodes_ir(g.nodes.subrange(0, k as int), g.output_var, 0).0,
            counter == nodes_ir(g.nodes.subrange(0, k as int), g.output_var, 0).1,
        decreases cfg.nodes@.len() - k,
    {
        proof {
            lemma_nodes_ir_prefix(g.nodes, g.output_var, k as int);
        }
        generate_node(&cfg.nodes[k], &cfg.output_var, &mut code, &mut counter);
        k = k + 1;
        assert(code@ =~= before_blocks + nodes_ir(g.nodes.subrange(0, k as int), g.output_var, 0).0);
    }
    assert(g.nodes.subrange(0, g.nodes.len() as int) =~= g.nodes);
    push_text(&mut code, "}\n");
    assert(code@ =~= llvm_ir_spec(*program));
    assert(code@.subrange(0, ir_header().len() as int) =~= ir_header());
    assert(code@.subrange(ir_header().len() as int, (ir_header().len() + allocas(vars).len()) as int) =~= allocas(vars));
    assert(code@.subrange(code@.len() - 2, code@.len() as int) =~= "}\n"@);
    code
}

/// The next temporary after an arithmetic expression, when it fits in a
/// `usize`.
fn count_expr_temps(expression: &Expr, c: usize) -> (r: Option<usize>)
    ensures
        match r {
            Some(n) => n == expr_ir(*expression, c as nat).2,
            None => expr_ir(*expression, c as nat).2 > usize::MAX,
        },
    decreases expression,
{
    match expression {
        Expr::Int(_) => Some(c),
        Expr::Var(_) => c.checked_add(1),
        Expr::Add(left, right) | Expr::Sub(left, right) | Expr::Mul(left, right) => {
            match count_expr_temps(left, c) {
                Some(c1) => match count_expr_temps(right, c1) {
                    Some(c2) => c2.checked_add(1),
                    None => None,
                },
                None => {
                    proof {
                        lemma_expr_ir_grows(**right, expr_ir(**left, c as nat).2);
                    }
                    None
                },
            }
        },
    }
}

/// The next temporary after a boolean expression, when it fits in a `usize`.
fn count_bool_temps(condition: &BoolExpr, c: usize) -> (r: Option<usize>)
    ensures
        match r {
            Some(n) => n == bool_ir(*condition, c as nat).2,
            None => bool_ir(*condition, c as nat).2 > usize::MAX,
        },
    decreases condition,
{
    match condition {
        BoolExpr::True | BoolExpr::False => Some(c),
        BoolExpr::Less(left, right) => {
            match count_expr_temps(left, c) {
                Some(c1) => match count_expr_temps(right, c1) {
                    Some(c2) => c2.checked_add(1),
                    None => None,
                },
                None => {
                    proof {
                        lemma_expr_ir_grows(**right, expr_ir(**left, c as nat).2);
                    }
                    None
                },
            }
        },
        BoolExpr::Not(inner) => {
            match count_bool_temps(inner, c) {
                Some(c1) => c1.checked_add(1),
                None => None,
            }
        },
        BoolExpr::And(left, right) => {
            match count_bool_temps(left, c) {
                Some(c1) => match count_bool_temps(right, c1) {
                    Some(c2) => c2.checked_add(1),
                    None => None,
                },
                None => {
                    proof {
                        lemma_bool_ir_grows(**right, bool_ir(**left, c as nat).2);
                    }
                    None
                },
            }
        },
    }
}

/// The next temporary after the block of a node, when it fits in a `usize`.
fn count_node_temps(node: &Node, c: usize) -> (r: Option<usize>)
    ensures
        match r {
            Some(n) => n == node_ir(*node, Seq::empty(), c as nat).1,
            None => node_ir(*node, Seq::empty(), c as nat).1 > usize::MAX,
        },
{
    let c1 = match &node.block {
        Block::Skip => c,
        Block::Assignment(_, expression) => match count_expr_temps(expression, c) {
            Some(n) => n,
            None => {
                proof {
                    lemma_node_ir_grows(*node, Seq::empty(), c as nat);
                }
                return None;
            },
        },
        Block::Condition(condition) => match count_bool_temps(condition, c) {
            Some(n) => {
                if let Edge::If { .. } = &node.edge {
                    return Some(n);
                }
                n
            },
            None => {
                proof {
                    lemma_node_ir_grows(*node, Seq::empty(), c as nat);
                }
                return None;
            },
        },
    };
    match &node.edge {
        Edge::End => c1.checked_add(1),
        _ => Some(c1),
    }
}

proof fn lemma_temps_ignore_output(ns: Seq<Node>, out: Seq<char>, c: nat)
    ensures
        nodes_ir(ns, out, c).1 == nodes_ir(ns, Seq::empty(), c).1,
    decreases ns.len(),
{
    if ns.len() > 0 {
        lemma_temps_ignore_output(ns.drop_last(), out, c);
    }
}

/// The LLVM IR of a program, unless its graph has more nodes, or its IR
/// more temporaries, than a `usize` counts.
pub fn try_generate_llvm_ir(program: &Program) -> (r: Option<String>)
    ensures
        match r {
            Some(code) => {
                &&& cmd_nodes(program.body) <= usize::MAX
                &&& llvm_temp_count(*program) <= usize::MAX
                &&& code@ == llvm_ir_spec(*program)
            },
            None => cmd_nodes(program.body) > usize::MAX || llvm_temp_count(*program) > usize::MAX,
        },
{
    if count_cfg_nodes(&program.body).is_none() {
        return None;
    }
    let cfg = build_cfg(program);
    let ghost ns = cfg.nodes@;
    proof {
        lemma_temps_ignore_output(ns, program.output_var@, 0);
    }
    let mut counter: usize = 0;
    let mut k: usize = 0;
    assert(ns.subrange(0, 0) =~= Seq::<Node>::empty());
    while k < cfg.nodes.len()
        invariant
            k <= ns.len(),
            ns == cfg.nodes@,
            ns == program_cfg(*program).nodes,
            llvm_temp_count(*program) == nodes_ir(ns, Seq::empty(), 0).1,
            counter == nodes_ir(ns.subrange(0, k as int), Seq::empty(), 0).1,
        decreases ns.len() - k,
    {
        proof {
            lemma_nodes_ir_prefix(ns, Seq::empty(), k as int);
        }
        match count_node_temps(&cfg.nodes[k], counter) {
            Some(n) => counter = n,
            None => return None,
        }
        k = k + 1;
    }
    assert(ns.subrange(0, ns.len() as int) =~= ns);
    Some(generate_llvm_ir(program))
}

} // verus!
