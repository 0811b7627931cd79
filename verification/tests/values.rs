use novaweb::database::{cell_to_value, row_to_value, rows_to_value, SqlCell};
use novaweb::text::Order;
use novaweb::value::{dict_get, dict_insert, int_to_text, ArithError, FloatRepr, Value};

fn s(t: &str) -> Value {
    Value::String(t.to_string())
}

fn float(x: f64) -> Value {
    Value::Float(FloatRepr { bits: x.to_bits(), text: format!("{}", x) })
}

#[test]
fn add_integers_and_strings() {
    assert!(matches!(Value::Int(2).add(Value::Int(3)), Ok(Value::Int(5))));
    match s("ab").add(s("cd")) {
        Ok(Value::String(t)) => assert_eq!(t, "abcd"),
        _ => panic!("string concatenation"),
    }
}

#[test]
fn add_rejects_other_types() {
    assert!(matches!(Value::Bool(true).add(Value::Int(1)), Err(ArithError::InvalidTypes)));
    assert!(matches!(s("a").add(Value::Int(1)), Err(ArithError::InvalidTypes)));
    assert!(matches!(Value::Null.add(Value::Null), Err(ArithError::InvalidTypes)));
}

#[test]
fn float_arithmetic_is_left_to_the_host() {
    assert!(matches!(float(1.5).add(Value::Int(1)), Err(ArithError::NeedsFloat)));
    assert!(matches!(Value::Int(1).add(float(1.5)), Err(ArithError::NeedsFloat)));
    assert!(matches!(float(1.5).sub(float(0.5)), Err(ArithError::NeedsFloat)));
    assert!(matches!(float(2.0).negate(), Err(ArithError::NeedsFloat)));
    // Only addition mixes an integer with a float.
    assert!(matches!(float(1.5).sub(Value::Int(1)), Err(ArithError::InvalidTypes)));
}

#[test]
fn sub_mul_div_negate_integers() {
    assert!(matches!(Value::Int(7).sub(Value::Int(10)), Ok(Value::Int(-3))));
    assert!(matches!(Value::Int(6).mul(Value::Int(-7)), Ok(Value::Int(-42))));
    assert!(matches!(Value::Int(7).div(Value::Int(2)), Ok(Value::Int(3))));
    assert!(matches!(Value::Int(5).negate(), Ok(Value::Int(-5))));
    assert!(matches!(s("x").negate(), Err(ArithError::InvalidTypes)));
    assert!(matches!(s("x").mul(Value::Int(2)), Err(ArithError::InvalidTypes)));
}

#[test]
fn integer_division_rounds_toward_zero() {
    assert!(matches!(Value::Int(-7).div(Value::Int(2)), Ok(Value::Int(-3))));
    assert!(matches!(Value::Int(7).div(Value::Int(-2)), Ok(Value::Int(-3))));
    assert!(matches!(Value::Int(-7).div(Value::Int(-2)), Ok(Value::Int(3))));
    assert!(matches!(Value::Int(i64::MIN).div(Value::Int(2)), Ok(Value::Int(-4611686018427387904))));
}

#[test]
fn integer_division_by_zero_fails() {
    assert!(matches!(Value::Int(1).div(Value::Int(0)), Err(ArithError::DivisionByZero)));
}

#[test]
fn truthiness() {
    assert!(!Value::Null.is_truthy());
    assert!(!Value::Bool(false).is_truthy());
    assert!(Value::Bool(true).is_truthy());
    assert!(!Value::Int(0).is_truthy());
    assert!(Value::Int(-1).is_truthy());
    assert!(!float(0.0).is_truthy());
    assert!(!float(-0.0).is_truthy());
    assert!(float(0.5).is_truthy());
    assert!(!s("").is_truthy());
    assert!(s("a").is_truthy());
    assert!(!Value::List(vec![]).is_truthy());
    assert!(Value::List(vec![Value::Null]).is_truthy());
    assert!(!Value::Dict(vec![]).is_truthy());
}

#[test]
fn display_texts() {
    assert_eq!(Value::Int(-42).to_text(), "-42");
    assert_eq!(Value::Bool(true).to_text(), "true");
    assert_eq!(Value::Null.to_text(), "null");
    assert_eq!(s("hi").to_text(), "hi");
    assert_eq!(float(2.5).to_text(), "2.5");
    let l = Value::List(vec![Value::Int(1), s("a"), Value::List(vec![])]);
    assert_eq!(l.to_text(), "[1, a, []]");
}

#[test]
fn display_sorts_map_keys() {
    let m = Value::Dict(vec![
        ("b".to_string(), Value::Int(2)),
        ("a".to_string(), Value::Int(1)),
        ("c".to_string(), s("x")),
    ]);
    assert_eq!(m.to_text(), "{a: 1, b: 2, c: x}");
}

#[test]
fn int_to_text_extremes() {
    assert_eq!(int_to_text(0), "0");
    assert_eq!(int_to_text(i64::MAX), "9223372036854775807");
    assert_eq!(int_to_text(i64::MIN), "-9223372036854775808");
}

#[test]
fn comparisons() {
    assert!(matches!(Value::Int(1).partial_cmp(&Value::Int(2)), Ok(Some(Order::Less))));
    assert!(matches!(s("b").partial_cmp(&s("a")), Ok(Some(Order::Greater))));
    assert!(matches!(s("ab").partial_cmp(&s("ab")), Ok(Some(Order::Equal))));
    assert!(matches!(Value::Bool(false).partial_cmp(&Value::Bool(true)), Ok(Some(Order::Less))));
    assert!(matches!(Value::Int(1).partial_cmp(&s("1")), Ok(None)));
    assert!(matches!(Value::Int(1).partial_cmp(&float(1.0)), Err(ArithError::NeedsFloat)));
}

#[test]
fn equality() {
    assert!(Value::Int(3).equals(&Value::Int(3)));
    assert!(!Value::Int(3).equals(&float(3.0)));
    assert!(float(0.0).equals(&float(-0.0)));
    assert!(!float(f64::NAN).equals(&float(f64::NAN)));
    assert!(Value::Null.equals(&Value::Null));
    let a = Value::Dict(vec![("x".to_string(), Value::Int(1)), ("y".to_string(), Value::Int(2))]);
    let b = Value::Dict(vec![("y".to_string(), Value::Int(2)), ("x".to_string(), Value::Int(1))]);
    assert!(a.equals(&b));
    assert!(!Value::List(vec![Value::Int(1)]).equals(&Value::List(vec![Value::Int(1), Value::Int(2)])));
}

#[test]
fn dictionary_insert_replaces_in_place() {
    let mut m: Vec<(String, Value)> = Vec::new();
    dict_insert(&mut m, "a".to_string(), Value::Int(1));
    dict_insert(&mut m, "b".to_string(), Value::Int(2));
    dict_insert(&mut m, "a".to_string(), Value::Int(3));
    assert_eq!(m.len(), 2);
    assert_eq!(m[0].0, "a");
    assert!(matches!(dict_get(&m, "a"), Some(Value::Int(3))));
    assert!(matches!(dict_get(&m, "b"), Some(Value::Int(2))));
    assert!(dict_get(&m, "c").is_none());
}

#[test]
fn copies_keep_function_bodies() {
    let f = Value::Function { params: vec!["x".to_string()], body: std::rc::Rc::new(vec![]) };
    let g = f.copy();
    assert!(f.equals(&g));
    assert_eq!(g.to_text(), "<function>");
}

#[test]
fn database_cells_become_values() {
    assert!(matches!(cell_to_value(&SqlCell::Null), Value::Null));
    assert!(matches!(cell_to_value(&SqlCell::Integer(9)), Value::Int(9)));
    match cell_to_value(&SqlCell::Blob(12)) {
        Value::String(t) => assert_eq!(t, "<blob: 12 bytes>"),
        _ => panic!("blob text"),
    }
    match cell_to_value(&SqlCell::Text("hey".to_string())) {
        Value::String(t) => assert_eq!(t, "hey"),
        _ => panic!("text"),
    }
}

#[test]
fn database_rows_become_maps() {
    let row = vec![
        ("id".to_string(), SqlCell::Integer(1)),
        ("name".to_string(), SqlCell::Text("ann".to_string())),
        ("id".to_string(), SqlCell::Integer(2)),
    ];
    match row_to_value(&row) {
        Value::Dict(m) => {
            assert_eq!(m.len(), 2);
            assert!(matches!(dict_get(&m, "id"), Some(Value::Int(2))));
        }
        _ => panic!("row map"),
    }
    match rows_to_value(&vec![row.clone_rows(), vec![]]) {
        Value::List(l) => assert_eq!(l.len(), 2),
        _ => panic!("row list"),
    }
}

trait CloneRows {
    fn clone_rows(&self) -> Vec<(String, SqlCell)>;
}

impl CloneRows for Vec<(String, SqlCell)> {
    fn clone_rows(&self) -> Vec<(String, SqlCell)> {
        self.iter()
            .map(|(k, c)| {
                let c2 = match c {
                    SqlCell::Null => SqlCell::Null,
                    SqlCell::Integer(i) => SqlCell::Integer(*i),
                    SqlCell::Text(t) => SqlCell::Text(t.clone()),
                    SqlCell::Blob(n) => SqlCell::Blob(*n),
                    SqlCell::Real(f) => SqlCell::Real(FloatRepr { bits: f.bits, text: f.text.clone() }),
                };
                (k.clone(), c2)
            })
            .collect()
    }
}
