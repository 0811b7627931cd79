use novaweb::environment::Environment;
use novaweb::template::render;
use novaweb::text::Order;
use novaweb::value::{dict_get, dict_insert, Value};

#[test]
fn dict_read_after_write() {
    let mut m: Vec<(String, Value)> = Vec::new();
    dict_insert(&mut m, "k".to_string(), Value::Int(1));
    dict_insert(&mut m, "other".to_string(), Value::Int(2));
    dict_insert(&mut m, "k".to_string(), Value::Int(3));
    assert!(matches!(dict_get(&m, "k"), Some(Value::Int(3))));
    assert!(matches!(dict_get(&m, "other"), Some(Value::Int(2))));
}

#[test]
fn define_then_get() {
    let mut env = Environment::new();
    env.define("x".to_string(), Value::Int(1));
    env.define("y".to_string(), Value::Int(2));
    env.define("x".to_string(), Value::Int(5));
    assert!(matches!(env.get("x"), Some(Value::Int(5))));
    assert!(matches!(env.get("y"), Some(Value::Int(2))));
}

#[test]
fn assign_then_get() {
    let mut env = Environment::new();
    assert!(!env.assign("x", Value::Int(1)));
    env.define("x".to_string(), Value::Int(1));
    env.push_scope();
    assert!(env.assign("x", Value::Int(9)));
    assert!(matches!(env.get("x"), Some(Value::Int(9))));
}

#[test]
fn compare_reversed() {
    let pairs = vec![
        (Value::Int(1), Value::Int(2)),
        (Value::String("ab".to_string()), Value::String("a".to_string())),
        (Value::Bool(true), Value::Bool(true)),
    ];
    for (a, b) in pairs {
        let x = a.partial_cmp(&b).ok().flatten();
        let y = b.partial_cmp(&a).ok().flatten().map(|o| match o {
            Order::Less => Order::Greater,
            Order::Equal => Order::Equal,
            Order::Greater => Order::Less,
        });
        assert_eq!(x, y);
    }
}

#[test]
fn render_readme_example() {
    let ctx = vec![("user".to_string(), Value::String("Alice".to_string()))];
    assert_eq!(render("Hello, {{ user }}!", &ctx), "Hello, Alice!");
}

#[test]
fn render_both_placeholder_forms() {
    let ctx = vec![("n".to_string(), Value::Int(3)), ("xs".to_string(), Value::List(vec![Value::Int(1)]))];
    assert_eq!(render("{{n}} and {{ n }} and {{ xs }} and {{ m }}", &ctx), "3 and 3 and [1] and {{ m }}");
}

#[test]
fn render_without_placeholders() {
    let ctx = vec![("a".to_string(), Value::Int(1))];
    assert_eq!(render("<p>plain</p>", &ctx), "<p>plain</p>");
}

#[test]
fn equality_reflexive() {
    let v = Value::Dict(vec![
        ("list".to_string(), Value::List(vec![Value::Int(1), Value::String("a".to_string()), Value::Null])),
        ("flag".to_string(), Value::Bool(false)),
    ]);
    assert!(v.equals(&v));
    let nan = Value::Float(novaweb::value::FloatRepr { bits: f64::NAN.to_bits(), text: "NaN".to_string() });
    assert!(!nan.equals(&nan));
}

fn run_on(it: &mut novaweb::interpreter::Interpreter, src: &str) -> Option<Value> {
    let prog = novaweb::parser::parse(src).ok()?;
    let host = |_c: novaweb::interpreter::HostCall| Value::Null;
    it.interpret(&prog, &host).ok()
}

#[test]
fn run_in_sequence() {
    let mut split = novaweb::interpreter::Interpreter::new();
    assert!(matches!(run_on(&mut split, "let x = 2; fn f(y) { return x * y; }"), Some(Value::Null)));
    let r1 = run_on(&mut split, "x = x + 1; return f(5);");
    let mut whole = novaweb::interpreter::Interpreter::new();
    let r2 = run_on(&mut whole, "let x = 2; fn f(y) { return x * y; } x = x + 1; return f(5);");
    assert!(matches!(r1, Some(Value::Int(15))));
    assert!(matches!(r2, Some(Value::Int(15))));
}

#[test]
fn map_literal_binds_each_key_once() {
    let mut it = novaweb::interpreter::Interpreter::new();
    match run_on(&mut it, "return { \"a\": 1, \"b\": 2, \"a\": 3 };") {
        Some(Value::Dict(m)) => {
            assert_eq!(m.len(), 2);
            assert!(matches!(dict_get(&m, "a"), Some(Value::Int(3))));
        }
        _ => panic!("map"),
    }
}

#[test]
fn block_keeps_outer_assignments() {
    let mut it = novaweb::interpreter::Interpreter::new();
    let src = "let x = 0; if true { let y = 1; while x < 3 { x = x + y; } for i in [10] { x = x + i; } } return x;";
    assert!(matches!(run_on(&mut it, src), Some(Value::Int(13))));
}
