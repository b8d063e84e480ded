use lib::common::text::space_separates_tokens;
use lib::common::order::{insert_sorted, text_before};
use lib::miniimp::ast::{BoolExpr, Cmd, Expr, Program};
use lib::miniimp::cfg::{build_cfg, count_cfg_nodes, Block, Cfg, Edge};
use lib::miniimp::dataflow::{defined_variables, live_variables, reaching_definitions};
use lib::miniimp::eval::{eval_bool, eval_cmd, eval_expr, eval_program, eval_program_fuel};
use lib::miniimp::lexer::{tokenize, Token};
use lib::miniimp::llvm::{generate_llvm_ir, try_generate_llvm_ir};
use lib::miniimp::optimizations::{
    constant_folding, constant_propagation, dead_store_elimination, optimize_cfg, try_constant_folding,
    try_optimize_cfg, undefined_variable_uses,
};
use lib::miniimp::parser::{parse_tokens, Parser};
use lib::miniimp::runtime::Memory;
use lib::miniimp::sets::{DefinitionPlace, NameSet};

const MAIN_SOURCE: &str = "
a := 30;
b := 9 - (0 * a);
x := 5;
out := x + b
";

fn parse(source: &str) -> Cmd {
    parse_tokens(tokenize(source).unwrap()).unwrap()
}

fn parse_error(source: &str) -> String {
    parse_tokens(tokenize(source).unwrap()).unwrap_err().message()
}

fn program(source: &str, input: &str, output: &str) -> Program {
    Program { input_var: input.to_string(), output_var: output.to_string(), body: parse(source) }
}

fn sorted_names(set: &NameSet) -> Vec<String> {
    let mut names = set.names();
    names.sort();
    names
}

fn blocks(cfg: &Cfg) -> Vec<String> {
    cfg.nodes.iter().map(|n| format!("{:?}", n.block)).collect()
}

#[test]
fn tokenize_main_program() {
    let tokens = tokenize("b := 9 - (0 * a);").unwrap();
    assert_eq!(
        format!("{:?}", tokens),
        "[Identifier(\"b\"), Assign, Number(9), Minus, LParen, Number(0), Star, Identifier(\"a\"), RParen, Semicolon]"
    );
}

#[test]
fn tokenize_keywords() {
    let tokens = tokenize("skip if then else while do true false and not + <").unwrap();
    assert_eq!(
        format!("{:?}", tokens),
        "[Skip, If, Then, Else, While, Do, True, False, And, Not, Plus, Less]"
    );
}

#[test]
fn tokenize_errors() {
    assert_eq!(tokenize("x : 1").unwrap_err().message(), "Parse error: expected '=' after ':' to form ':='");
    assert_eq!(tokenize("x = 1").unwrap_err().message(), "Parse error: unexpected character '='");
    assert_eq!(
        tokenize("x := 99999999999999999999").unwrap_err().message(),
        "Parse error: invalid integer literal '99999999999999999999'"
    );
}

#[test]
fn parse_main_program() {
    assert_eq!(
        format!("{:?}", parse(MAIN_SOURCE)),
        "Sequence(Sequence(Sequence(Assign(\"a\", Int(30)), Assign(\"b\", Sub(Int(9), Mul(Int(0), Var(\"a\"))))), Assign(\"x\", Int(5))), Assign(\"out\", Add(Var(\"x\"), Var(\"b\"))))"
    );
}

#[test]
fn parse_control_flow() {
    assert_eq!(
        format!("{:?}", parse("if not x < 1 and true then skip else (y := 1; skip)")),
        "If(And(Not(Less(Var(\"x\"), Int(1))), True), Skip, Sequence(Assign(\"y\", Int(1)), Skip))"
    );
    assert_eq!(
        format!("{:?}", parse("while (x < 3) do x := x + 1")),
        "While(Less(Var(\"x\"), Int(3)), Assign(\"x\", Add(Var(\"x\"), Int(1))))"
    );
}

#[test]
fn parse_arithmetic_precedence() {
    assert_eq!(
        format!("{:?}", parse("x := 1 - 2 - 3 * 4 + y")),
        "Assign(\"x\", Add(Sub(Sub(Int(1), Int(2)), Mul(Int(3), Int(4))), Var(\"y\")))"
    );
}

#[test]
fn parse_errors() {
    assert_eq!(parse_error("if x < 1 then skip"), "Parse error: unexpected end of input.");
    assert_eq!(parse_error("skip skip"), "Parse error: unexpected extra token Some(Skip) after the end of the command");
    assert_eq!(
        parse_error("if x then skip else skip"),
        "Parse error: expected a boolean expression or a comparison using '<'"
    );
    assert_eq!(
        parse_error("if (x + 1) < 2 then skip else skip"),
        "Parse error: expected a boolean expression or a comparison using '<'"
    );
    assert_eq!(parse_error("then"), "Parse error: unexpected token Then while parsing a command");
    assert_eq!(parse_error("x := then"), "Parse error: unexpected token Then while parsing an arithmetic expression");
    assert_eq!(parse_error("while true skip"), "Parse error: expected token Do, but found Skip");
    assert_eq!(parse_error("(skip"), "Parse error: unexpected end of input.");
    assert_eq!(parse_error("x y"), "Parse error: expected token Assign, but found Identifier(\"y\")");
}

#[test]
fn parser_pieces() {
    let mut parser = Parser::new(tokenize("1 + x * 2").unwrap());
    let expr = parser.parse_expr().unwrap();
    assert_eq!(format!("{:?}", expr), "Add(Int(1), Mul(Var(\"x\"), Int(2)))");

    let mut parser = Parser::new(tokenize("not true and 1 < 2").unwrap());
    let b = parser.parse_bool_expr().unwrap();
    assert_eq!(format!("{:?}", b), "And(Not(True), Less(Int(1), Int(2)))");

    let mut parser = Parser::new(tokenize("skip; skip )").unwrap());
    let c = parser.parse_cmd().unwrap();
    assert_eq!(format!("{:?}", c), "Sequence(Skip, Skip)");
    assert_eq!(
        parser.finish().unwrap_err().message(),
        "Parse error: unexpected token RParen while parsing a command"
    );
}

#[test]
fn eval_main_program() {
    let p = program(MAIN_SOURCE, "in", "out");
    assert_eq!(eval_program(&p, 5).unwrap(), 14);
}

#[test]
fn eval_loop_program() {
    let p = program("out := 0; while 0 < in do (out := out + in; in := in - 1)", "in", "out");
    assert_eq!(eval_program(&p, 4).unwrap(), 10);
    assert_eq!(eval_program(&p, 0).unwrap(), 0);
}

#[test]
fn eval_errors() {
    let p = program("out := y", "in", "out");
    assert_eq!(
        eval_program(&p, 1).unwrap_err().message(),
        "Runtime error: the variable 'y' was used before it was assigned a value."
    );
    let p = program("x := 1", "in", "out");
    assert_eq!(
        eval_program(&p, 1).unwrap_err().message(),
        "Runtime error: the program finished, but the output variable 'out' was never assigned."
    );
}

#[test]
fn eval_overflow_and_fuel() {
    let p = program("out := in + 1", "in", "out");
    assert!(eval_program_fuel(&p, i64::MAX, 100).is_none());
    assert_eq!(eval_program_fuel(&p, 1, 100).unwrap().unwrap(), 2);
    let p = program("while true do skip", "in", "out");
    assert!(eval_program_fuel(&p, 0, 50).is_none());
}

#[test]
fn eval_pieces() {
    let mut memory = Memory::new();
    memory.insert("x".to_string(), 3);
    let e = Expr::Mul(Box::new(Expr::Var("x".to_string())), Box::new(Expr::Int(7)));
    assert_eq!(eval_expr(&memory, &e).unwrap(), 21);
    let b = BoolExpr::Not(Box::new(BoolExpr::Less(Box::new(Expr::Var("x".to_string())), Box::new(Expr::Int(2)))));
    assert!(eval_bool(&memory, &b).unwrap());
    let after = eval_cmd(&memory, &parse("x := x - 1; y := x")).unwrap();
    assert_eq!(after.get(&"x".to_string()), Some(2));
    assert_eq!(after.get(&"y".to_string()), Some(2));
    assert_eq!(memory.get(&"y".to_string()), None);
}

#[test]
fn cfg_of_main_program() {
    let p = program(MAIN_SOURCE, "in", "out");
    let cfg = build_cfg(&p);
    assert_eq!(cfg.nodes.len(), 4);
    assert_eq!(cfg.start, 0);
    assert_eq!(cfg.end, 3);
    assert_eq!(
        cfg.nodes.iter().map(|n| format!("{:?}", n.edge)).collect::<Vec<_>>(),
        vec!["Next(1)", "Next(2)", "Next(3)", "End"]
    );
    assert_eq!(cfg.input_var, "in");
    assert_eq!(cfg.output_var, "out");
    assert_eq!(count_cfg_nodes(&p.body), Some(4));
}

#[test]
fn cfg_of_if_and_while() {
    let p = program("if x < 1 then y := 1 else skip", "x", "y");
    let cfg = build_cfg(&p);
    assert_eq!(
        cfg.nodes.iter().map(|n| format!("{} {:?} {:?}", n.id, n.block, n.edge)).collect::<Vec<_>>(),
        vec![
            "0 Condition(Less(Var(\"x\"), Int(1))) If { true_branch: 1, false_branch: 2 }",
            "1 Assignment(\"y\", Int(1)) Next(3)",
            "2 Skip Next(3)",
            "3 Skip End",
        ]
    );
    assert_eq!((cfg.start, cfg.end), (0, 3));

    let p = program("while 0 < x do x := x - 1", "x", "x");
    let cfg = build_cfg(&p);
    assert_eq!(
        cfg.nodes.iter().map(|n| format!("{:?}", n.edge)).collect::<Vec<_>>(),
        vec!["If { true_branch: 1, false_branch: 2 }", "Next(0)", "End"]
    );
    assert_eq!((cfg.start, cfg.end), (0, 2));
    assert_eq!(count_cfg_nodes(&p.body), Some(3));
}

#[test]
fn dataflow_of_straight_line_program() {
    let p = program("x := in + 1; out := x * 2", "in", "out");
    let cfg = build_cfg(&p);

    let defined = defined_variables(&cfg);
    assert_eq!(sorted_names(&defined.nodes[0].annotation.in_set), vec!["in"]);
    assert_eq!(sorted_names(&defined.nodes[0].annotation.out_set), vec!["in", "x"]);
    assert_eq!(sorted_names(&defined.nodes[1].annotation.in_set), vec!["in", "x"]);
    assert_eq!(sorted_names(&defined.nodes[1].annotation.out_set), vec!["in", "out", "x"]);

    let live = live_variables(&cfg);
    assert_eq!(sorted_names(&live.nodes[0].annotation.in_set), vec!["in"]);
    assert_eq!(sorted_names(&live.nodes[0].annotation.out_set), vec!["x"]);
    assert_eq!(sorted_names(&live.nodes[1].annotation.in_set), vec!["x"]);
    assert_eq!(sorted_names(&live.nodes[1].annotation.out_set), vec!["out"]);

    let reaching = reaching_definitions(&cfg);
    let mut defs: Vec<String> = reaching.nodes[1]
        .annotation
        .out_set
        .definitions()
        .iter()
        .map(|d| format!("{} {:?}", d.variable, d.place))
        .collect();
    defs.sort();
    assert_eq!(defs, vec!["in Input", "out Node(1)", "x Node(0)"]);
    assert_eq!(reaching.nodes[0].annotation.in_set.definitions().len(), 1);
    assert_eq!(reaching.nodes[0].annotation.in_set.definitions()[0].place, DefinitionPlace::Input);
}

#[test]
fn dataflow_of_loop() {
    let p = program("(while x < 3 do (y := 1; x := x + 1)); out := y", "x", "out");
    let cfg = build_cfg(&p);
    let defined = defined_variables(&cfg);
    assert_eq!(sorted_names(&defined.nodes[0].annotation.in_set), vec!["x"]);
    assert_eq!(sorted_names(&defined.nodes[2].annotation.in_set), vec!["x", "y"]);
    assert_eq!(sorted_names(&defined.nodes[4].annotation.in_set), vec!["x"]);
    assert_eq!(sorted_names(&defined.nodes[4].annotation.out_set), vec!["out", "x"]);

    let reaching = reaching_definitions(&cfg);
    let mut defs: Vec<String> = reaching.nodes[0]
        .annotation
        .in_set
        .definitions()
        .iter()
        .map(|d| format!("{} {:?}", d.variable, d.place))
        .collect();
    defs.sort();
    assert_eq!(defs, vec!["x Input", "x Node(2)", "y Node(1)"]);

    let live = live_variables(&cfg);
    assert_eq!(sorted_names(&live.nodes[0].annotation.in_set), vec!["x", "y"]);

    let uses = undefined_variable_uses(&cfg);
    assert_eq!(uses, vec![("y".to_string(), 4)]);
}

#[test]
fn no_undefined_uses_in_main_program() {
    let cfg = build_cfg(&program(MAIN_SOURCE, "in", "out"));
    assert!(undefined_variable_uses(&cfg).is_empty());
}

#[test]
fn constant_folding_of_main_program() {
    let cfg = build_cfg(&program(MAIN_SOURCE, "in", "out"));
    let (folded, changed) = constant_folding(&cfg);
    assert!(changed);
    assert_eq!(
        blocks(&folded),
        vec![
            "Assignment(\"a\", Int(30))",
            "Assignment(\"b\", Int(9))",
            "Assignment(\"x\", Int(5))",
            "Assignment(\"out\", Add(Var(\"x\"), Var(\"b\")))",
        ]
    );
    let (_, changed_again) = constant_folding(&folded);
    assert!(!changed_again);
}

#[test]
fn constant_folding_rules() {
    let cfg = build_cfg(&program(
        "a := x * 1; b := 0 + x; c := x - 0; d := 1 * x; e := x * 0; if not (1 < 2) and x < 3 then skip else skip",
        "x",
        "e",
    ));
    let (folded, changed) = constant_folding(&cfg);
    assert!(changed);
    assert_eq!(
        blocks(&folded)[..6].to_vec(),
        vec![
            "Assignment(\"a\", Var(\"x\"))",
            "Assignment(\"b\", Var(\"x\"))",
            "Assignment(\"c\", Var(\"x\"))",
            "Assignment(\"d\", Var(\"x\"))",
            "Assignment(\"e\", Int(0))",
            "Condition(False)",
        ]
    );
}

#[test]
fn constant_folding_overflow_is_refused() {
    let cfg = build_cfg(&program("x := 9223372036854775807 + 1", "x", "x"));
    assert!(try_constant_folding(&cfg).is_none());
}

#[test]
fn constant_propagation_of_main_program() {
    let cfg = build_cfg(&program(MAIN_SOURCE, "in", "out"));
    let (propagated, changed) = constant_propagation(&cfg);
    assert!(changed);
    assert_eq!(
        blocks(&propagated),
        vec![
            "Assignment(\"a\", Int(30))",
            "Assignment(\"b\", Sub(Int(9), Mul(Int(0), Int(30))))",
            "Assignment(\"x\", Int(5))",
            "Assignment(\"out\", Add(Int(5), Var(\"b\")))",
        ]
    );
}

#[test]
fn constant_propagation_needs_a_single_definition() {
    let cfg = build_cfg(&program("(if in < 0 then x := 1 else x := 2); out := x + in", "in", "out"));
    let (propagated, changed) = constant_propagation(&cfg);
    assert!(!changed);
    assert_eq!(blocks(&propagated), blocks(&cfg));
}

#[test]
fn dead_store_elimination_of_programs() {
    let cfg = build_cfg(&program(MAIN_SOURCE, "in", "out"));
    let (same, changed) = dead_store_elimination(&cfg);
    assert!(!changed);
    assert_eq!(blocks(&same), blocks(&cfg));

    let cfg = build_cfg(&program("x := 1; x := 2; out := x", "in", "out"));
    let (cleaned, changed) = dead_store_elimination(&cfg);
    assert!(changed);
    assert_eq!(blocks(&cleaned), vec!["Skip", "Assignment(\"x\", Int(2))", "Assignment(\"out\", Var(\"x\"))"]);
}

#[test]
fn optimize_main_program() {
    let cfg = build_cfg(&program(MAIN_SOURCE, "in", "out"));
    let optimized = optimize_cfg(&cfg);
    assert_eq!(blocks(&optimized), vec!["Skip", "Skip", "Skip", "Assignment(\"out\", Int(14))"]);
    assert_eq!(optimized.nodes.len(), cfg.nodes.len());
    assert_eq!((optimized.start, optimized.end), (cfg.start, cfg.end));
    let again = try_optimize_cfg(&cfg).unwrap();
    assert_eq!(blocks(&again), blocks(&optimized));
}

#[test]
fn llvm_of_straight_line_program() {
    let p = program("x := in + 1; out := x * 2", "in", "out");
    let expected = "define i64 @func(i64 %in) {
entry:
  %in_ptr = alloca i64
  %out_ptr = alloca i64
  %x_ptr = alloca i64
  store i64 %in, ptr %in_ptr
  store i64 0, ptr %out_ptr
  store i64 0, ptr %x_ptr
  br label %block0
block0:
  %tmp0 = load i64, ptr %in_ptr
  %tmp1 = add i64 %tmp0, 1
  store i64 %tmp1, ptr %x_ptr
  br label %block1
block1:
  %tmp2 = load i64, ptr %x_ptr
  %tmp3 = mul i64 %tmp2, 2
  store i64 %tmp3, ptr %out_ptr
  %tmp4 = load i64, ptr %out_ptr
  ret i64 %tmp4
}
";
    assert_eq!(generate_llvm_ir(&p), expected);
    assert_eq!(try_generate_llvm_ir(&p).unwrap(), expected);
}

#[test]
fn llvm_of_loop() {
    let p = program("while 0 < x do x := x - 1", "x", "x");
    let expected = "define i64 @func(i64 %in) {
entry:
  %x_ptr = alloca i64
  store i64 %in, ptr %x_ptr
  br label %block0
block0:
  %tmp0 = load i64, ptr %x_ptr
  %tmp1 = icmp slt i64 0, %tmp0
  br i1 %tmp1, label %block1, label %block2
block1:
  %tmp2 = load i64, ptr %x_ptr
  %tmp3 = sub i64 %tmp2, 1
  store i64 %tmp3, ptr %x_ptr
  br label %block0
block2:
  %tmp4 = load i64, ptr %x_ptr
  ret i64 %tmp4
}
";
    assert_eq!(generate_llvm_ir(&p), expected);
}

#[test]
fn llvm_of_conditional() {
    let p = program("if not (x < 1) and true then y := 1 else skip", "x", "y");
    let expected = "define i64 @func(i64 %in) {
entry:
  %x_ptr = alloca i64
  %y_ptr = alloca i64
  store i64 %in, ptr %x_ptr
  store i64 0, ptr %y_ptr
  br label %block0
block0:
  %tmp0 = load i64, ptr %x_ptr
  %tmp1 = icmp slt i64 %tmp0, 1
  %tmp2 = xor i1 %tmp1, true
  %tmp3 = and i1 %tmp2, true
  br i1 %tmp3, label %block1, label %block2
block1:
  store i64 1, ptr %y_ptr
  br label %block3
block2:
  br label %block3
block3:
  %tmp4 = load i64, ptr %y_ptr
  ret i64 %tmp4
}
";
    assert_eq!(generate_llvm_ir(&p), expected);
}

#[test]
fn llvm_orders_slots_by_name() {
    let p = program("zeta := 1; b := 2; ab := 3; a := 4", "in", "B");
    let code = generate_llvm_ir(&p);
    let slots: Vec<&str> = code.lines().filter(|l| l.ends_with("= alloca i64")).collect();
    assert_eq!(
        slots,
        vec![
            "  %B_ptr = alloca i64",
            "  %a_ptr = alloca i64",
            "  %ab_ptr = alloca i64",
            "  %b_ptr = alloca i64",
            "  %in_ptr = alloca i64",
            "  %zeta_ptr = alloca i64",
        ]
    );
}

#[test]
fn name_order_and_sorted_insertion() {
    assert!(text_before(&"a".to_string(), &"ab".to_string()));
    assert!(text_before(&"B".to_string(), &"a".to_string()));
    assert!(!text_before(&"b".to_string(), &"ab".to_string()));
    assert!(!text_before(&"x".to_string(), &"x".to_string()));
    let mut names: Vec<String> = Vec::new();
    for n in ["m", "c", "x", "c", "a"] {
        insert_sorted(&mut names, &n.to_string());
    }
    assert_eq!(names, vec!["a", "c", "m", "x"]);
}

#[test]
fn program_ast_by_hand() {
    let body = Cmd::Sequence(
        Box::new(Cmd::Assign("t".to_string(), Expr::Int(2))),
        Box::new(Cmd::If(
            BoolExpr::Less(Box::new(Expr::Var("t".to_string())), Box::new(Expr::Var("n".to_string()))),
            Box::new(Cmd::Assign("r".to_string(), Expr::Var("n".to_string()))),
            Box::new(Cmd::Assign("r".to_string(), Expr::Var("t".to_string()))),
        )),
    );
    let p = Program { input_var: "n".to_string(), output_var: "r".to_string(), body };
    assert_eq!(eval_program(&p, 7).unwrap(), 7);
    assert_eq!(eval_program(&p, 1).unwrap(), 2);
    let cfg = build_cfg(&p);
    assert_eq!(cfg.nodes.len(), 5);
    assert!(matches!(cfg.nodes[1].block, Block::Condition(_)));
    assert!(matches!(cfg.nodes[0].edge, Edge::Next(1)));
}

#[test]
fn optimized_graph_agrees_with_interpreter() {
    let p = program("x := 6; y := x * 7; if y < 50 then out := y - x else out := 0", "in", "out");
    assert_eq!(eval_program(&p, 0).unwrap(), 36);
    let optimized = optimize_cfg(&build_cfg(&p));
    let assigned_out: Vec<String> = blocks(&optimized)
        .into_iter()
        .filter(|b| b.starts_with("Assignment(\"out\""))
        .collect();
    assert_eq!(assigned_out, vec!["Assignment(\"out\", Int(36))", "Assignment(\"out\", Int(0))"]);
    assert!(blocks(&optimized).contains(&"Condition(True)".to_string()));
}

#[test]
fn more_fuel_gives_the_same_output() {
    let p = program("out := 0; while 0 < in do (out := out + in; in := in - 1)", "in", "out");
    let small = eval_program_fuel(&p, 3, 20).unwrap().unwrap();
    let large = eval_program_fuel(&p, 3, 100000).unwrap().unwrap();
    assert_eq!(small, 6);
    assert_eq!(large, 6);
}

#[test]
fn checked_program_runs_without_errors() {
    let p = program("out := 1; while 0 < in do (out := out * 2; in := in - 1)", "in", "out");
    let cfg = build_cfg(&p);
    assert!(undefined_variable_uses(&cfg).is_empty());
    for input in [0, 1, 5, -3] {
        assert!(eval_program(&p, input).is_ok());
    }
    assert_eq!(eval_program(&p, 5).unwrap(), 32);
}

#[test]
fn undefined_reads_are_listed_per_occurrence() {
    let cfg = build_cfg(&program("out := y + y", "in", "out"));
    assert_eq!(undefined_variable_uses(&cfg), vec![("y".to_string(), 0), ("y".to_string(), 0)]);
}

fn edges(cfg: &Cfg) -> Vec<String> {
    cfg.nodes.iter().map(|n| format!("{} {:?}", n.id, n.edge)).collect()
}

fn value(memory: &Result<Memory, lib::common::error::EvalError>, name: &str) -> Option<i64> {
    memory.as_ref().unwrap().get(&name.to_string())
}

#[test]
fn tokens_of_programs_joined_by_a_space() {
    assert!(space_separates_tokens());
    for (a, b) in [("x := 1", "y := x"), ("x :=", "1; skip"), ("while", "x1"), ("a", "b"), ("", "12")] {
        let mut joined = tokenize(a).unwrap();
        joined.extend(tokenize(b).unwrap());
        assert_eq!(format!("{:?}", tokenize(&format!("{} {}", a, b)).unwrap()), format!("{:?}", joined));
    }
    assert_eq!(format!("{:?}", tokenize("ab").unwrap()), "[Identifier(\"ab\")]");
    assert_eq!(format!("{:?}", tokenize("a b").unwrap()), "[Identifier(\"a\"), Identifier(\"b\")]");
}

#[test]
fn two_way_edges_only_at_conditions() {
    let p = program("if x < 1 then (while 0 < x do x := x - 1) else skip; y := 2", "x", "y");
    let cfg = build_cfg(&p);
    for node in &cfg.nodes {
        assert_eq!(matches!(node.edge, Edge::If { .. }), matches!(node.block, Block::Condition(_)));
    }
    assert_eq!(cfg.nodes.iter().filter(|n| matches!(n.edge, Edge::End)).count(), 1);
}

#[test]
fn second_folding_pass_changes_nothing() {
    let cfg = build_cfg(&program("x := (1 + 2) * (y + 0); if not (x < 1 + 1) then z := 0 * y else skip", "y", "z"));
    let (once, changed) = constant_folding(&cfg);
    assert!(changed);
    let (twice, changed_again) = constant_folding(&once);
    assert!(!changed_again);
    assert_eq!(blocks(&twice), blocks(&once));
    let (_, unchanged) = constant_folding(&build_cfg(&program("x := y + 1", "y", "x")));
    assert!(!unchanged);
}

#[test]
fn optimisation_keeps_the_graph_links() {
    let p = program("a := 2; b := a * 3; if b < 7 then c := b else c := 0; while 0 < c do c := c - 1; out := a", "in", "out");
    let cfg = build_cfg(&p);
    let optimized = optimize_cfg(&cfg);
    assert_eq!(edges(&optimized), edges(&cfg));
    assert_eq!((optimized.start, optimized.end), (cfg.start, cfg.end));
    assert_eq!((optimized.input_var.as_str(), optimized.output_var.as_str()), ("in", "out"));
    for (old, new) in cfg.nodes.iter().zip(optimized.nodes.iter()) {
        let kept = match (&old.block, &new.block) {
            (Block::Skip, Block::Skip) => true,
            (Block::Assignment(_, _), Block::Skip) => true,
            (Block::Assignment(x, _), Block::Assignment(y, _)) => x == y,
            (Block::Condition(_), Block::Condition(_)) => true,
            _ => false,
        };
        assert!(kept);
    }
}

#[test]
fn llvm_header_footer_and_slots() {
    let ir = generate_llvm_ir(&program("z := 1; a := z; out := a", "in", "out"));
    assert!(ir.starts_with("define i64 @func(i64 %in) {\nentry:\n"));
    assert!(ir.ends_with("}\n"));
    assert_eq!(ir.matches(" = alloca i64\n").count(), 4);
    assert!(ir.contains("entry:\n  %a_ptr = alloca i64\n  %in_ptr = alloca i64\n  %out_ptr = alloca i64\n  %z_ptr = alloca i64\n"));
}

#[test]
fn runs_change_only_assigned_variables() {
    let mut memory = Memory::new();
    memory.insert("k".to_string(), 7);
    memory.insert("n".to_string(), 3);
    let after = eval_cmd(&memory, &parse("s := 0; while 0 < n do (s := s + n; n := n - 1)"));
    assert_eq!(value(&after, "k"), Some(7));
    assert_eq!(value(&after, "n"), Some(0));
    assert_eq!(value(&after, "s"), Some(6));
    assert_eq!(value(&after, "t"), None);
}

#[test]
fn sequencing_laws_on_examples() {
    let mut memory = Memory::new();
    memory.insert("n".to_string(), 4);
    let c = parse("n := n * 2");
    let skip_first = Cmd::Sequence(Box::new(Cmd::Skip), Box::new(c.copy()));
    let skip_last = Cmd::Sequence(Box::new(c.copy()), Box::new(Cmd::Skip));
    assert_eq!(value(&eval_cmd(&memory, &skip_first), "n"), Some(8));
    assert_eq!(value(&eval_cmd(&memory, &skip_last), "n"), Some(8));
    let left = parse("(a := n; b := a + 1); c := b * 2");
    let right = parse("a := n; (b := a + 1; c := b * 2)");
    assert_eq!(value(&eval_cmd(&memory, &left), "c"), Some(10));
    assert_eq!(value(&eval_cmd(&memory, &right), "c"), Some(10));
    let looped = parse("while 0 < n do n := n - 1");
    let unfolded = parse("if 0 < n then (n := n - 1; while 0 < n do n := n - 1) else skip");
    assert_eq!(value(&eval_cmd(&memory, &looped), "n"), Some(0));
    assert_eq!(value(&eval_cmd(&memory, &unfolded), "n"), Some(0));
    let failing = parse("while 0 < n do n := m");
    let unfolded_failing = parse("if 0 < n then (n := m; while 0 < n do n := m) else skip");
    let first = match eval_cmd(&memory, &failing) {
        Err(e) => e.message(),
        Ok(_) => panic!("the loop reads an undefined variable"),
    };
    let second = match eval_cmd(&memory, &unfolded_failing) {
        Err(e) => e.message(),
        Ok(_) => panic!("the unfolding reads an undefined variable"),
    };
    assert_eq!(first, second);
}

#[test]
fn defined_variables_at_a_loop_head() {
    let p = program("x := 1; while x < 10 do x := x + 1", "in", "out");
    let cfg = build_cfg(&p);
    let defined = defined_variables(&cfg);
    assert_eq!(sorted_names(&defined.nodes[0].annotation.in_set), vec!["in"]);
    for k in 1..4 {
        assert_eq!(sorted_names(&defined.nodes[k].annotation.in_set), vec!["in", "x"]);
        assert_eq!(sorted_names(&defined.nodes[k].annotation.out_set), vec!["in", "x"]);
    }
    let p = program("x := 0; while x < in do x := x + in; out := x", "in", "out");
    assert!(undefined_variable_uses(&build_cfg(&p)).is_empty());
}

#[test]
fn clones_and_token_equality() {
    let tokens = tokenize("x := 1").unwrap();
    assert!(tokens[0] == Token::Identifier("x".to_string()));
    assert!(tokens[0] != Token::Identifier("y".to_string()));
    assert!(tokens.clone() == tokens);
    let cfg = build_cfg(&program(MAIN_SOURCE, "in", "out"));
    let copy = cfg.clone();
    assert_eq!(blocks(&copy), blocks(&cfg));
    assert_eq!(edges(&copy), edges(&cfg));
    let c = parse("while x < 3 do x := x + 1");
    assert_eq!(format!("{:?}", c.clone()), format!("{:?}", c));
}
