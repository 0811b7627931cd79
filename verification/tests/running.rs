use novaweb::ast::{Expr, Literal, Stmt};
use novaweb::environment::Environment;
use novaweb::interpreter::{print_line, EvalError, HostCall, Interpreter};
use novaweb::parser::parse;
use novaweb::semantics::FloatOp;
use novaweb::value::{FloatRepr, Value};
use std::cell::RefCell;

fn float(x: f64) -> Value {
    Value::Float(FloatRepr { bits: x.to_bits(), text: format!("{}", x) })
}

fn number(v: &Value) -> f64 {
    match v {
        Value::Float(f) => f64::from_bits(f.bits),
        Value::Int(i) => *i as f64,
        _ => f64::NAN,
    }
}

/// Runs a program with a host that prints into a list and does float work.
fn run_with(src: &str, globals: Vec<(String, Value)>) -> (Result<Value, EvalError>, Vec<String>) {
    let prog = parse(src).expect("the program parses");
    let printed = RefCell::new(Vec::new());
    let host = |c: HostCall| -> Value {
        match c {
            HostCall::Print(args) => {
                let line: Vec<String> = args.iter().map(|a| a.to_text()).collect();
                printed.borrow_mut().push(line.join(" "));
                Value::Null
            }
            HostCall::ParseFloat(t) => float(t.parse::<f64>().unwrap()),
            HostCall::Float { op, lhs, rhs } => {
                let (a, b) = (number(&lhs), number(&rhs));
                match op {
                    FloatOp::Add => float(a + b),
                    FloatOp::Sub => float(a - b),
                    FloatOp::Mul => float(a * b),
                    FloatOp::Div => float(a / b),
                    FloatOp::Lt => Value::Bool(a < b),
                    FloatOp::Gt => Value::Bool(a > b),
                    FloatOp::Le => Value::Bool(a <= b),
                    FloatOp::Ge => Value::Bool(a >= b),
                    FloatOp::Neg => float(-a),
                }
            }
            HostCall::ReadFile(p) => {
                if p == "hello.txt" {
                    Value::String("hello from a file".to_string())
                } else {
                    Value::Null
                }
            }
            HostCall::DbConnect(_) => Value::Bool(true),
            HostCall::DbQuery { sql, params } => Value::List(vec![Value::String(sql), Value::List(params)]),
            HostCall::DbExecute { params, .. } => Value::Int(params.len() as i64),
        }
    };
    let mut it = if globals.is_empty() { Interpreter::new() } else { Interpreter::with_env(globals) };
    let r = it.interpret(&prog, &host);
    (r, printed.into_inner())
}

fn run(src: &str) -> (Result<Value, EvalError>, Vec<String>) {
    run_with(src, Vec::new())
}

fn int_result(src: &str) -> i64 {
    match run(src).0 {
        Ok(Value::Int(i)) => i,
        _ => panic!("expected an integer from {}", src),
    }
}

#[test]
fn readme_example_renders_the_template() {
    let src = "let user = \"Alice\";\n\
               let ctx = { \"user\": user };\n\
               let template = \"Hello, {{ user }}!\";\n\
               print(render(template, ctx));";
    let (r, printed) = run(src);
    assert!(matches!(r, Ok(Value::Null)));
    assert_eq!(printed, vec!["Hello, Alice!".to_string()]);
}

#[test]
fn print_writes_each_text_and_a_space_then_a_newline() {
    assert_eq!(print_line(&vec![Value::Int(1), Value::String("a".to_string())]), "1 a \n");
    assert_eq!(print_line(&vec![Value::String("Hello, Alice!".to_string())]), "Hello, Alice! \n");
    assert_eq!(print_line(&vec![]), "\n");
}

#[test]
fn program_value_is_its_first_top_level_return() {
    assert_eq!(int_result("let x = 2; return x * 21; return 0;"), 42);
    assert!(matches!(run("let x = 1;").0, Ok(Value::Null)));
}

#[test]
fn while_loop_sums() {
    assert_eq!(int_result("let i = 0; let s = 0; while i < 5 { i = i + 1; s = s + i; } return s;"), 15);
}

#[test]
fn for_loop_over_a_list() {
    assert_eq!(int_result("let s = 0; for x in [1, 2, 3, 4] { s = s + (x * x); } return s;"), 30);
    // One precedence, grouped from the left: `s + x * x` is `(s + x) * x`.
    assert_eq!(int_result("let s = 0; for x in [1, 2, 3, 4] { s = s + x * x; } return s;"), 124);
}

#[test]
fn functions_and_recursion() {
    let src = "fn fib(n) { if n < 2 { return n; } return fib(n - 1) + fib(n - 2); } return fib(15);";
    assert_eq!(int_result(src), 610);
    assert!(matches!(run("fn f() { } return f();").0, Ok(Value::Null)));
}

#[test]
fn functions_are_values() {
    let src = "fn twice(f, x) { return f(f(x)); } fn inc(x) { return x + 1; } return twice(inc, 5);";
    assert_eq!(int_result(src), 7);
}

#[test]
fn block_variables_do_not_leak() {
    let (r, _) = run("if true { let inner = 1; } return inner;");
    assert!(matches!(r, Err(EvalError::Undefined(ref n)) if n == "inner"));
}

#[test]
fn function_locals_do_not_leak() {
    let (r, _) = run("fn f() { let z = 1; return z; } f(); return z;");
    assert!(matches!(r, Err(EvalError::Undefined(ref n)) if n == "z"));
    // A function sees the globals, and can assign to them.
    assert_eq!(int_result("let g = 1; fn bump() { g = g + 1; } bump(); bump(); return g;"), 3);
}

#[test]
fn evaluation_stops_when_out_of_steps() {
    let host = |_c: HostCall| Value::Null;
    let mut it = Interpreter::new();
    let e = Expr::Literal(Literal::Int(1));
    assert!(matches!(it.eval_expr(&e, 0, &host), Err(EvalError::OutOfFuel)));
    assert!(matches!(it.eval_expr(&e, 1, &host), Ok(Value::Int(1))));
    assert_eq!(EvalError::OutOfFuel.message(), "Evaluation ran out of steps");
}

#[test]
fn assignment_reaches_the_enclosing_scope() {
    assert_eq!(int_result("let x = 1; if true { x = 5; } return x;"), 5);
    assert_eq!(int_result("let x = 1; if true { let x = 2; x = 3; } return x;"), 1);
}

#[test]
fn assignment_to_an_unbound_name_fails() {
    assert!(matches!(run("y = 1;").0, Err(EvalError::Undefined(ref n)) if n == "y"));
}

#[test]
fn strings_lists_and_maps() {
    let (r, _) = run("let m = { \"a\": [10, 20, 30] }; return m.a[-1] + m[\"a\"][0];");
    assert!(matches!(r, Ok(Value::Int(40))));
    assert!(matches!(run("return [1][5];").0, Ok(Value::Null)));
    assert!(matches!(run("return {}.missing;").0, Ok(Value::Null)));
    match run("return \"ab\" + \"cd\";").0 {
        Ok(Value::String(s)) => assert_eq!(s, "abcd"),
        _ => panic!("concatenation"),
    }
}

#[test]
fn optional_access_stops_at_null() {
    assert!(matches!(run("let u = null; return u?.name;").0, Ok(Value::Null)));
    assert!(matches!(run("let u = null; return u?[undefined_name];").0, Ok(Value::Null)));
    assert!(matches!(run("let u = {\"n\": 3}; return u?.n;").0, Ok(Value::Int(3))));
}

#[test]
fn interpolated_strings() {
    match run("let n = 3; return f\"n is {n}, twice {n * 2}\";").0 {
        Ok(Value::String(s)) => assert_eq!(s, "n is 3, twice 6"),
        _ => panic!("interpolation"),
    }
}

#[test]
fn builtin_len_counts_bytes_and_items() {
    assert_eq!(int_result("return len(\"héllo\");"), 6);
    assert_eq!(int_result("return len([1, 2, 3]);"), 3);
    assert_eq!(int_result("return len({\"a\": 1});"), 1);
    assert_eq!(int_result("return len(5);"), 0);
    assert!(matches!(run("return len();").0, Ok(Value::Null)));
}

#[test]
fn builtin_read_file_asks_the_host() {
    match run("return read_file(\"hello.txt\");").0 {
        Ok(Value::String(s)) => assert_eq!(s, "hello from a file"),
        _ => panic!("file text"),
    }
    assert!(matches!(run("return read_file(\"missing\");").0, Ok(Value::Null)));
    assert!(matches!(run("return read_file(1);").0, Ok(Value::Null)));
}

#[test]
fn database_builtins_pass_parameters() {
    assert!(matches!(run("return db.connect(\"app.db\");").0, Ok(Value::Bool(true))));
    assert_eq!(int_result("return db.execute(\"insert\", [1, 2.5, true, [1]]);"), 4);
    match run("return db.query(\"select\", 7);").0 {
        Ok(Value::List(l)) => match &l[1] {
            Value::List(ps) => {
                assert_eq!(ps.len(), 1);
                assert!(matches!(ps[0], Value::Int(7)));
            }
            _ => panic!("parameters"),
        },
        _ => panic!("query reply"),
    }
}

#[test]
fn float_work_goes_to_the_host() {
    match run("return 1.5 + 1;").0 {
        Ok(v) => assert_eq!(number(&v), 2.5),
        Err(_) => panic!("float addition"),
    }
    assert!(matches!(run("return 2.5 > 1;").0, Ok(Value::Bool(true))));
    match run("return -2.5;").0 {
        Ok(v) => assert_eq!(number(&v), -2.5),
        Err(_) => panic!("float negation"),
    }
}

#[test]
fn comparisons_and_logic() {
    assert!(matches!(run("return (1 < 2) && (\"a\" < \"b\");").0, Ok(Value::Bool(true))));
    assert!(matches!(run("return 1 < 2 && \"a\" < \"b\";").0, Ok(Value::Bool(false))));
    assert!(matches!(run("return 1 == 1.0;").0, Ok(Value::Bool(false))));
    assert!(matches!(run("return 1 < \"2\";").0, Ok(Value::Bool(false))));
    assert!(matches!(run("return !0 || false;").0, Ok(Value::Bool(true))));
    assert!(matches!(run("return [1, 2] == [1, 2];").0, Ok(Value::Bool(true))));
}

#[test]
fn runtime_errors() {
    assert!(matches!(run("return 1 / 0;").0, Err(EvalError::DivisionByZero)));
    assert!(matches!(run("return true + 1;").0, Err(EvalError::InvalidOperands(_))));
    assert!(matches!(run("return -\"a\";").0, Err(EvalError::InvalidNegation)));
    assert!(matches!(run("return 5.x;").0, Err(EvalError::NotAMap)));
    assert!(matches!(run("return 5[0];").0, Err(EvalError::InvalidIndex)));
    assert!(matches!(run("fn f(a) { return a; } return f(1, 2);").0,
        Err(EvalError::Arity { expected: 1, got: 2 })));
    assert!(matches!(run("return 3(1);").0, Err(EvalError::NotCallable)));
    assert!(matches!(run("let k = 1; return { k: 1 };").0, Ok(Value::Dict(_))));
    // Keys written in a program are always strings; a tree built by hand may hold others.
    let prog = vec![Stmt::Return(Some(Expr::Dict(vec![(
        Expr::Literal(Literal::Int(1)),
        Expr::Literal(Literal::Int(2)),
    )])))];
    let host = |_c: HostCall| Value::Null;
    assert!(matches!(Interpreter::new().interpret(&prog, &host), Err(EvalError::KeyNotString)));
    assert!(matches!(run("for x in 5 { }").0, Err(EvalError::NotIterable)));
    assert!(matches!(run("return 9223372036854775807 + 1;").0, Err(EvalError::Overflow)));
    assert!(matches!(run("return missing;").0, Err(EvalError::Undefined(_))));
}

#[test]
fn runtime_error_messages() {
    assert_eq!(EvalError::Undefined("x".to_string()).message(), "Undefined variable 'x'");
    assert_eq!(EvalError::Arity { expected: 2, got: 1 }.message(), "Expected 2 arguments, got 1");
    assert_eq!(EvalError::DivisionByZero.message(), "Division by zero");
    assert_eq!(EvalError::NotIterable.message(), "Can only iterate over lists");
    assert_eq!(EvalError::KeyNotString.message(), "Map keys must be strings");
}

#[test]
fn given_globals_are_visible_and_builtins_win() {
    let globals = vec![
        ("greeting".to_string(), Value::String("hi".to_string())),
        ("len".to_string(), Value::Int(0)),
    ];
    let (r, _) = run_with("return greeting + \"!\";", globals);
    assert!(matches!(r, Ok(Value::String(ref s)) if s == "hi!"));
    let globals = vec![("len".to_string(), Value::Int(0))];
    let (r, _) = run_with("return len(\"abc\");", globals);
    assert!(matches!(r, Ok(Value::Int(3))));
}

#[test]
fn define_global_binds_a_name() {
    let prog = parse("return answer;").expect("parses");
    let host = |_c: HostCall| Value::Null;
    let mut it = Interpreter::new();
    it.define_global("answer".to_string(), Value::Int(42));
    assert!(matches!(it.interpret(&prog, &host), Ok(Value::Int(42))));
}

#[test]
fn environment_scopes() {
    let mut env = Environment::new();
    env.define("a".to_string(), Value::Int(1));
    env.push_scope();
    env.define("a".to_string(), Value::Int(2));
    assert!(matches!(env.get("a"), Some(Value::Int(2))));
    assert!(env.assign("a", Value::Int(3)));
    env.pop_scope();
    assert!(matches!(env.get("a"), Some(Value::Int(1))));
    assert!(!env.assign("b", Value::Int(1)));
    assert!(env.get("b").is_none());
}
