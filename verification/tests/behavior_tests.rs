use monkey::ast::Ast;
use monkey::env::Environment;
use monkey::token::{lookup_identifier, Token};
use monkey::value::{get_function, BuiltInKind};
use monkey::eval::Evaluator;
use monkey::lexer::Lexer;
use monkey::parser::Parser;
use monkey::value::Value;

fn parse(input: &str) -> monkey::program::Program {
    let lexer = Lexer::new(input);
    let mut parser = Parser::new(lexer);
    let program = parser.parse_program();
    assert!(parser.errors.is_empty(), "parser had errors: {:?}", parser.errors);
    program
}

fn run(input: &str) -> Result<Value, String> {
    Evaluator::eval(&Ast::Program(parse(input)))
}

fn expect_int(input: &str, expected: i64) {
    match run(input) {
        Ok(Value::Integer(i)) => assert_eq!(i, expected, "input: {}", input),
        other => panic!("input {} gave {:?}", input, other),
    }
}

fn expect_bool(input: &str, expected: bool) {
    match run(input) {
        Ok(Value::Boolean(b)) => assert_eq!(b, expected, "input: {}", input),
        other => panic!("input {} gave {:?}", input, other),
    }
}

#[test]
fn test_truthiness_boundary() {
    expect_bool("!5", false);
    expect_bool("!0", true);
    expect_bool("!(-5)", true);
    expect_bool("!!5", true);
    expect_bool("if 0 { 1 } else { 2 } == 2", true);
    expect_bool("!\"text\"", true);
}

#[test]
fn test_closures_capture_environment_by_reference() {
    // A rebinding after the function's definition is visible through the
    // captured scope at call time.
    expect_int("let x = 5; let add_x = fn(y) { x + y; }; let x = 10; add_x(1);", 11);
    // Free identifiers resolve through the definition scope, not the call
    // site's scope.
    expect_int(
        "let x = 5; let f = fn() { x; }; let g = fn(x) { f(); }; g(99);",
        5,
    );
    // A counter factory: each closure keeps its own captured scope alive.
    expect_int(
        "let make = fn(n) { fn() { n; }; }; let a = make(1); let b = make(2); a() + b();",
        3,
    );
}

#[test]
fn test_error_surfacing_not_crash() {
    match run("x;") {
        Err(m) => assert_eq!(m, "identifier not found: x"),
        other => panic!("expected an error, got {:?}", other),
    }
    match run("5 / 0;") {
        Err(m) => assert_eq!(m, "cannot divide by zero!\n\t(5 / 0)"),
        other => panic!("expected an error, got {:?}", other),
    }
    match run("true + false;") {
        Err(m) => assert_eq!(m, "Invalid infix expression!\n\t(true + false)"),
        other => panic!("expected an error, got {:?}", other),
    }
    match run("-true;") {
        Err(m) => assert_eq!(m, "Invalid prefix expression!\n\t(-true)"),
        other => panic!("expected an error, got {:?}", other),
    }
    match run("9223372036854775807 + 1;") {
        Err(m) => assert_eq!(m, "integer overflow!\n\t(9223372036854775807 + 1)"),
        other => panic!("expected an error, got {:?}", other),
    }
    match run("let f = fn(x) { x; }; f();") {
        Err(m) => assert_eq!(m, "function takes 1 arguments, 0 arguments given"),
        other => panic!("expected an error, got {:?}", other),
    }
    match run("5(1);") {
        Err(m) => assert!(m.starts_with("apply_function had an error"), "got {}", m),
        other => panic!("expected an error, got {:?}", other),
    }
}

#[test]
fn test_truncating_division_and_remainder() {
    expect_int("7 / 2", 3);
    expect_int("(0 - 7) / 2", -3);
    expect_int("7 % 3", 1);
    expect_int("(0 - 7) % 3", -1);
    expect_int("7 % (0 - 3)", 1);
    expect_int("10 % 4 + 10 / 4", 4);
}

#[test]
fn test_string_literals_and_len_builtin() {
    match run("\"foo bar\"") {
        Ok(Value::String(s)) => assert_eq!(s, "foo bar"),
        other => panic!("got {:?}", other),
    }
    expect_int("len(\"hello\")", 5);
    expect_int("len(\"\")", 0);
    match run("len(1)") {
        Err(m) => assert_eq!(m, "Cannot take length of 1"),
        other => panic!("expected an error, got {:?}", other),
    }
    match run("len(\"a\", \"b\")") {
        Err(m) => assert_eq!(m, "len() takes 1 argument, 2 arguments given"),
        other => panic!("expected an error, got {:?}", other),
    }
}

#[test]
fn test_println_writes_lines_to_output() {
    let mut ev = Evaluator::new();
    let r = ev.eval_self(&Ast::Program(parse("println(1, true, \"x\"); println(2);")));
    assert!(r.is_ok());
    assert_eq!(ev.take_output(), "1 true x\n2\n");
    assert_eq!(ev.take_output(), "");
}

#[test]
fn test_input_reads_injected_lines() {
    let mut ev = Evaluator::new();
    ev.push_input("  42  ".to_string());
    ev.push_input("hello".to_string());
    match ev.eval_self(&Ast::Program(parse("input(\"? \")"))) {
        Ok(Value::Integer(i)) => assert_eq!(i, 42),
        other => panic!("got {:?}", other),
    }
    match ev.eval_self(&Ast::Program(parse("input(\"? \")"))) {
        Ok(Value::String(s)) => assert_eq!(s, "hello"),
        other => panic!("got {:?}", other),
    }
    match ev.eval_self(&Ast::Program(parse("input(\"? \")"))) {
        Err(m) => assert_eq!(m, "input exhausted"),
        other => panic!("got {:?}", other),
    }
    assert_eq!(ev.take_output(), "? ? ? ");
}

#[test]
fn test_builtin_is_shadowable_like_any_identifier() {
    expect_int("let len = fn(x) { 99; }; len(\"abc\");", 99);
}

#[test]
fn test_repl_state_persists_across_programs() {
    let mut monkey = monkey::Monkey::new();
    let r1 = monkey.eval(parse("let a = 2;"));
    assert!(r1.is_ok());
    match monkey.eval(parse("a * 21;")) {
        Ok(Value::Integer(i)) => assert_eq!(i, 42),
        other => panic!("got {:?}", other),
    }
}

#[test]
fn test_rendering_round_trip_is_stable() {
    // Re-parsing the rendering of a parsed program yields a program that
    // renders to the same text.
    let inputs = vec![
        "a + b * c + d / e - f",
        "let x = 5; let y = if x > 1 { x } else { 0 - x }; y;",
        "let add = fn(x, y) { x + y; }; add(1, add(2, 3));",
        "return 10; 9;",
        "!true == false",
    ];
    for input in inputs {
        let first = parse(input).render();
        let second = parse(&first).render();
        assert_eq!(first, second, "input: {}", input);
    }
}

#[test]
fn test_oversized_integer_literal_is_rejected_by_parser() {
    let lexer = Lexer::new("92233720368547758080");
    let mut parser = Parser::new(lexer);
    let _ = parser.parse_program();
    assert!(!parser.errors.is_empty());
}

#[test]
fn test_lexer_new_and_lookup_identifier() {
    assert_eq!(lookup_identifier("fn"), Token::Func);
    assert_eq!(lookup_identifier("let"), Token::Let);
    assert_eq!(lookup_identifier("if"), Token::If);
    assert_eq!(lookup_identifier("else"), Token::Else);
    assert_eq!(lookup_identifier("true"), Token::True);
    assert_eq!(lookup_identifier("false"), Token::False);
    assert_eq!(lookup_identifier("return"), Token::Return);
    assert_eq!(lookup_identifier("foobar"), Token::Ident("foobar".to_string()));
}

#[test]
fn test_environment_chain_shadowing() {
    let mut env = Environment::new();
    env.set(0, "a".to_string(), Value::Integer(1));
    let inner = env.new_enclosed(0);
    env.set(inner, "a".to_string(), Value::Integer(2));
    match env.get(inner, &"a".to_string()) {
        Ok(Value::Integer(i)) => assert_eq!(i, 2),
        other => panic!("got {:?}", other),
    }
    match env.get(0, &"a".to_string()) {
        Ok(Value::Integer(i)) => assert_eq!(i, 1),
        other => panic!("got {:?}", other),
    }
    match env.get(inner, &"missing".to_string()) {
        Err(m) => assert_eq!(m, "identifier not found: missing"),
        other => panic!("got {:?}", other),
    }
}

#[test]
fn test_get_function_registry() {
    assert_eq!(get_function("len"), Some(BuiltInKind::Len));
    assert_eq!(get_function("println"), Some(BuiltInKind::Println));
    assert_eq!(get_function("input"), Some(BuiltInKind::Input));
    assert_eq!(get_function("nope"), None);
}

#[test]
fn test_value_rendering() {
    assert_eq!(Value::Integer(-7).render(), "-7");
    assert_eq!(Value::Boolean(true).render(), "true");
    assert_eq!(Value::Null.render(), "null");
    assert_eq!(Value::String("hi".to_string()).render(), "hi");
    match run("fn(x, y) { x; }") {
        Ok(v) => assert_eq!(v.render(), "fn(x, y) {\nx\n}"),
        other => panic!("got {:?}", other),
    }
}
