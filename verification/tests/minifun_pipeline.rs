use lib::common::text::space_separates_tokens;
use lib::common::error::EvalError;
use lib::minifun::ast::Term;
use lib::minifun::eval::{eval_program, eval_term, eval_term_fuel};
use lib::minifun::lexer::{tokenize, Token};
use lib::minifun::parser::{parse_tokens, Parser};
use lib::minifun::runtime::{Env, Value};
use lib::minifun::typecheck::{typecheck_program, typecheck_term};
use lib::minifun::types::{Type, TypeEnv};

fn parse(source: &str) -> Term {
    parse_tokens(tokenize(source).unwrap()).unwrap()
}

fn parse_error(source: &str) -> String {
    parse_tokens(tokenize(source).unwrap()).unwrap_err().message()
}

fn type_text(source: &str) -> String {
    format!("{:?}", typecheck_program(&parse(source)).unwrap())
}

fn type_error(source: &str) -> String {
    typecheck_program(&parse(source)).unwrap_err().message()
}

fn int_result(source: &str) -> i64 {
    match eval_program(&parse(source)).unwrap() {
        Value::Int(n) => n,
        other => panic!("expected an integer, got {:?}", other),
    }
}

fn bool_result(source: &str) -> bool {
    match eval_program(&parse(source)).unwrap() {
        Value::Bool(b) => b,
        other => panic!("expected a boolean, got {:?}", other),
    }
}

#[test]
fn tokenize_function_literal() {
    let tokens = tokenize("fun x : int => x + 1").unwrap();
    assert_eq!(
        format!("{:?}", tokens),
        "[Fun, Identifier(\"x\"), Colon, TypeInt, Arrow, Identifier(\"x\"), Plus, Number(1)]"
    );
}

#[test]
fn tokenize_every_symbol() {
    let tokens = tokenize("= => : -> - && ~ ( ) + * < true false if then else let in letfun bool").unwrap();
    assert_eq!(
        format!("{:?}", tokens),
        "[Equal, Arrow, Colon, TypeArrow, Minus, And, Not, LParen, RParen, Plus, Star, Less, True, False, If, Then, Else, Let, In, LetFun, TypeBool]"
    );
}

#[test]
fn tokenize_names_with_digits_underscores_and_letters_beyond_ascii() {
    let tokens = tokenize("x_1 é2\tfoo\nbar42").unwrap();
    assert_eq!(
        format!("{:?}", tokens),
        "[Identifier(\"x_1\"), Identifier(\"é2\"), Identifier(\"foo\"), Identifier(\"bar42\")]"
    );
}

#[test]
fn tokenize_number_then_name() {
    let tokens = tokenize("12ab").unwrap();
    assert_eq!(format!("{:?}", tokens), "[Number(12), Identifier(\"ab\")]");
}

#[test]
fn tokenize_largest_number() {
    let tokens = tokenize("9223372036854775807").unwrap();
    assert_eq!(format!("{:?}", tokens), "[Number(9223372036854775807)]");
}

#[test]
fn tokenize_number_too_large() {
    let err = tokenize("9223372036854775808").unwrap_err();
    assert_eq!(err.message(), "Parse error: invalid integer literal '9223372036854775808'");
}

#[test]
fn tokenize_single_ampersand() {
    let err = tokenize("a & b").unwrap_err();
    assert_eq!(err.message(), "Parse error: expected '&' after '&' to form '&&'");
}

#[test]
fn tokenize_unknown_character() {
    let err = tokenize("a $ b").unwrap_err();
    assert_eq!(err.message(), "Parse error: unexpected character '$'");
}

#[test]
fn tokenize_empty_source() {
    assert_eq!(tokenize("  \n ").unwrap().len(), 0);
}

#[test]
fn parse_function_literal() {
    assert_eq!(format!("{:?}", parse("fun x : int => x + 1")), "Fun(\"x\", Int, Add(Var(\"x\"), Int(1)))");
}

#[test]
fn parse_application_of_function_literal() {
    assert_eq!(
        format!("{:?}", parse("(fun x : int => x + 1) 5")),
        "App(Fun(\"x\", Int, Add(Var(\"x\"), Int(1))), Int(5))"
    );
}

#[test]
fn parse_application_binds_tighter_than_plus() {
    assert_eq!(format!("{:?}", parse("f x + 1")), "Add(App(Var(\"f\"), Var(\"x\")), Int(1))");
}

#[test]
fn parse_application_groups_to_the_left() {
    assert_eq!(format!("{:?}", parse("f x y")), "App(App(Var(\"f\"), Var(\"x\")), Var(\"y\"))");
}

#[test]
fn parse_operators_group_to_the_left() {
    assert_eq!(
        format!("{:?}", parse("1 - 2 - 3")),
        "Sub(Sub(Int(1), Int(2)), Int(3))"
    );
    assert_eq!(
        format!("{:?}", parse("1 + 2 * 3 - 4")),
        "Sub(Add(Int(1), Mul(Int(2), Int(3))), Int(4))"
    );
}

#[test]
fn parse_precedence_of_and_less_not() {
    assert_eq!(
        format!("{:?}", parse("~ a && 1 < 2")),
        "And(Not(Var(\"a\")), Less(Int(1), Int(2)))"
    );
}

#[test]
fn parse_let_and_if() {
    assert_eq!(format!("{:?}", parse("let x = 5 in x + 1")), "Let(\"x\", Int(5), Add(Var(\"x\"), Int(1)))");
    assert_eq!(format!("{:?}", parse("if true then 10 else 20")), "If(True, Int(10), Int(20))");
}

#[test]
fn parse_letfun() {
    assert_eq!(
        format!("{:?}", parse("letfun f x : int -> int = if x < 2 then 1 else x + f (x - 1) in f 4")),
        "LetFun(\"f\", \"x\", Fun(Int, Int), If(Less(Var(\"x\"), Int(2)), Int(1), Add(Var(\"x\"), App(Var(\"f\"), Sub(Var(\"x\"), Int(1))))), App(Var(\"f\"), Int(4)))"
    );
}

#[test]
fn parse_function_types_group_to_the_left() {
    assert_eq!(
        format!("{:?}", parse("fun g : int -> bool -> int => g")),
        "Fun(\"g\", Fun(Fun(Int, Bool), Int), Var(\"g\"))"
    );
    assert_eq!(
        format!("{:?}", parse("fun g : int -> (bool -> int) => g")),
        "Fun(\"g\", Fun(Int, Fun(Bool, Int)), Var(\"g\"))"
    );
}

#[test]
fn parse_error_expected_token() {
    assert_eq!(parse_error("let x = 1 then"), "Parse error: expected token In, but found Then");
    assert_eq!(parse_error("let x = 1 y"), "Parse error: unexpected end of input.");
}

#[test]
fn parse_error_missing_name() {
    assert_eq!(parse_error("let 5 = 1 in 2"), "Parse error: expected an identifier after 'let', but found Number(5)");
    assert_eq!(parse_error("letfun 1"), "Parse error: expected a function name after 'letfun', but found Number(1)");
    assert_eq!(parse_error("letfun f true"), "Parse error: expected a parameter name in 'letfun', but found True");
    assert_eq!(parse_error("fun (x"), "Parse error: expected a parameter name after 'fun', but found LParen");
}

#[test]
fn parse_error_unexpected_token_in_term() {
    assert_eq!(parse_error("1 + then"), "Parse error: unexpected token Then while parsing a MiniFun term");
}

#[test]
fn parse_error_unexpected_token_in_type() {
    assert_eq!(parse_error("fun x : 3 => x"), "Parse error: unexpected token Number(3) while parsing a type");
}

#[test]
fn parse_error_extra_token() {
    assert_eq!(parse_error("1 2 )"), "Parse error: unexpected extra token Some(RParen) after the end of the term");
}

#[test]
fn parse_error_end_of_input() {
    assert_eq!(parse_error("1 +"), "Parse error: unexpected end of input.");
    assert_eq!(parse_error(""), "Parse error: unexpected end of input.");
}

#[test]
fn parser_parse_term_stops_before_extra_tokens() {
    let mut parser = Parser::new(tokenize("1 + 2 )").unwrap());
    let term = parser.parse_term().unwrap();
    assert_eq!(format!("{:?}", term), "Add(Int(1), Int(2))");
    let err = parser.finish().unwrap_err();
    assert_eq!(err.message(), "Parse error: unexpected token RParen while parsing a MiniFun term");
}

#[test]
fn typecheck_well_typed_programs() {
    assert_eq!(type_text("fun x : int => x + 1"), "Fun(Int, Int)");
    assert_eq!(type_text("(fun x : int => x + 1) 5"), "Int");
    assert_eq!(type_text("let x = 5 in x + 1"), "Int");
    assert_eq!(type_text("if true then 10 else 20"), "Int");
    assert_eq!(type_text("letfun f x : int -> int = if x < 2 then 1 else x + f (x - 1) in f 4"), "Int");
    assert_eq!(type_text("~ (1 < 2) && true"), "Bool");
}

#[test]
fn typecheck_ill_typed_programs() {
    assert_eq!(type_error("fun x : bool => x + 1"), "Type checking error: operator '+' expects two integers");
    assert_eq!(
        type_error("if true then 1 else false"),
        "Type checking error: if branches must have the same type, but found Int and Bool"
    );
    assert_eq!(type_error("5 2"), "Type checking error: attempted to apply a non-function term");
    assert_eq!(type_error("letfun f x : int = x + 1 in f 5"), "Type checking error: letfun annotation must be a function type");
}

#[test]
fn typecheck_each_error() {
    assert_eq!(type_error("y"), "Type checking error: variable 'y' is not defined in the typing environment");
    assert_eq!(type_error("true - 1"), "Type checking error: operator '-' expects two integers");
    assert_eq!(type_error("true * 1"), "Type checking error: operator '*' expects two integers");
    assert_eq!(type_error("1 && true"), "Type checking error: operator '&&' expects two booleans");
    assert_eq!(type_error("true < 1"), "Type checking error: operator '<' expects two integers");
    assert_eq!(type_error("~ 1"), "Type checking error: operator '~' expects a boolean");
    assert_eq!(type_error("if 1 then 2 else 3"), "Type checking error: if condition must have type bool");
    assert_eq!(
        type_error("(fun x : int => x) true"),
        "Type checking error: function expects argument of type Int, but found Bool"
    );
    assert_eq!(
        type_error("letfun f x : int -> bool = x in f 1"),
        "Type checking error: letfun body has type Int, but the annotation expects Bool"
    );
}

#[test]
fn typecheck_in_a_given_environment() {
    let mut env = TypeEnv::new();
    env.insert("n".to_string(), Type::Int);
    let ty = typecheck_term(&env, &parse("n < 3")).unwrap();
    assert!(ty.same(&Type::Bool));
}

#[test]
fn eval_well_typed_programs() {
    assert!(matches!(eval_program(&parse("fun x : int => x + 1")).unwrap(), Value::Closure(_, _, _)));
    assert_eq!(int_result("(fun x : int => x + 1) 5"), 6);
    assert_eq!(int_result("let x = 5 in x + 1"), 6);
    assert_eq!(int_result("if true then 10 else 20"), 10);
    assert_eq!(int_result("letfun f x : int -> int = if x < 2 then 1 else x + f (x - 1) in f 4"), 10);
}

#[test]
fn eval_operators() {
    assert_eq!(int_result("7 - 2 * 3"), 1);
    assert!(bool_result("~ false && 1 < 2"));
    assert!(!bool_result("2 < 1"));
    assert_eq!(int_result("let x = 1 in let x = x + 10 in x"), 11);
}

#[test]
fn eval_closure_keeps_its_environment() {
    assert_eq!(int_result("let y = 3 in let f = fun x : int => x + y in let y = 100 in f 1"), 4);
}

#[test]
fn eval_runtime_errors() {
    assert_eq!(
        eval_program(&parse("x")).unwrap_err().message(),
        "Runtime error: the variable 'x' was used before it was assigned a value."
    );
    assert_eq!(
        eval_program(&parse("5 2")).unwrap_err().message(),
        "Type error: attempted to apply a non-function value"
    );
    assert_eq!(
        eval_program(&parse("if 1 then 2 else 3")).unwrap_err().message(),
        "Type error: if condition must evaluate to a boolean"
    );
    assert_eq!(
        eval_program(&parse("true + 1")).unwrap_err().message(),
        "Type error: operator '+' expects two integers"
    );
    assert_eq!(
        eval_program(&parse("1 && true")).unwrap_err().message(),
        "Type error: operator 'and' expects two booleans"
    );
    assert_eq!(
        eval_program(&parse("true < 1")).unwrap_err().message(),
        "Type error: operator '<' expects two integers"
    );
    assert_eq!(
        eval_program(&parse("~ 1")).unwrap_err().message(),
        "Type error: operator 'not' expects a boolean"
    );
}

#[test]
fn eval_with_small_fuel() {
    let env = Env::new();
    let term = parse("letfun f x : int -> int = f x in f 1");
    assert!(eval_term_fuel(&env, &term, 50).is_none());
    let term = parse("1 + 2");
    assert!(eval_term_fuel(&env, &term, 1).is_none());
    assert!(matches!(eval_term_fuel(&env, &term, 2), Some(Ok(Value::Int(3)))));
}

#[test]
fn eval_overflow_gives_no_result() {
    let env = Env::new();
    let term = parse("9223372036854775807 + 1");
    assert!(eval_term_fuel(&env, &term, 10).is_none());
}

#[test]
fn eval_in_a_given_environment() {
    let mut env = Env::new();
    env.insert("n".to_string(), Value::Int(41));
    assert!(matches!(eval_term(&env, &parse("n + 1")), Ok(Value::Int(42))));
    assert!(matches!(env.get(&"n".to_string()), Some(Value::Int(41))));
    assert!(env.get(&"m".to_string()).is_none());
}

#[test]
fn well_typed_program_evaluates_to_a_value_of_its_type() {
    let source = "letfun sum n : int -> int = if n < 1 then 0 else n + sum (n - 1) in sum 10 < 100";
    assert_eq!(type_text(source), "Bool");
    assert!(bool_result(source));
}

#[test]
fn token_equality_and_copy() {
    let a = Token::Identifier("x".to_string());
    assert!(a.same(&a.copy()));
    assert!(!a.same(&Token::Identifier("y".to_string())));
    assert!(Token::Number(3).same(&Token::Number(3)));
    assert!(!Token::Number(3).same(&Token::Plus));
}

#[test]
fn error_messages() {
    assert_eq!(
        EvalError::OutputVariableUndefined("out".to_string()).message(),
        "Runtime error: the program finished, but the output variable 'out' was never assigned."
    );
    assert_eq!(EvalError::ParseError("m".to_string()).message(), "Parse error: m");
    assert_eq!(EvalError::UnexpectedEndOfInput.message(), "Parse error: unexpected end of input.");
    assert_eq!(EvalError::TypeError("m".to_string()).message(), "Type error: m");
    assert_eq!(EvalError::TypeCheckError("m".to_string()).message(), "Type checking error: m");
    assert_eq!(
        EvalError::UndefinedVariable("v".to_string()).message(),
        "Runtime error: the variable 'v' was used before it was assigned a value."
    );
}

#[test]
fn identifier_text_is_quoted_as_debug_prints_it() {
    assert_eq!(
        parse_error("fun x : int é"),
        "Parse error: expected token Arrow, but found Identifier(\"é\")"
    );
}

#[test]
fn more_fuel_gives_the_same_value() {
    let env = Env::new();
    let term = parse("letfun f x : int -> int = if x < 1 then 0 else 2 + f (x - 1) in f 3");
    let small = eval_term_fuel(&env, &term, 30);
    let large = eval_term_fuel(&env, &term, 100000);
    assert!(matches!(small, Some(Ok(Value::Int(6)))));
    assert!(matches!(large, Some(Ok(Value::Int(6)))));
}

#[test]
fn tokens_of_terms_joined_by_a_space() {
    assert!(space_separates_tokens());
    for (a, b) in [("fun x", "=> x"), ("letfun", "f"), ("x -", "y"), ("1 &&", "2"), ("a", "b"), ("", "x1_y")] {
        let mut joined = tokenize(a).unwrap();
        joined.extend(tokenize(b).unwrap());
        assert_eq!(format!("{:?}", tokenize(&format!("{} {}", a, b)).unwrap()), format!("{:?}", joined));
    }
    assert_eq!(format!("{:?}", tokenize("=>").unwrap()), "[Arrow]");
    assert!(tokenize("= >").is_err());
}
