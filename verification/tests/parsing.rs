use novaweb::ast::{BinaryOp, Expr, Literal, Stmt, UnaryOp};
use novaweb::lexer::{tokenize, Sym, Token};
use novaweb::parser::{digits_to_i64, parse, parse_expression_only, NovaParser, ParseError};

fn int_lit(e: &Expr) -> Option<i64> {
    match e {
        Expr::Literal(Literal::Int(i)) => Some(*i),
        _ => None,
    }
}

#[test]
fn tokens_of_a_statement() {
    let ts = tokenize("let x = 42;").expect("lexes");
    assert_eq!(ts.len(), 5);
    assert!(matches!(ts[0], Token::Sym(Sym::Let)));
    assert!(matches!(&ts[1], Token::Ident(n) if n == "x"));
    assert!(matches!(ts[2], Token::Sym(Sym::Assign)));
    assert!(matches!(&ts[3], Token::Int(d) if d == "42"));
    assert!(matches!(ts[4], Token::Sym(Sym::Semi)));
}

#[test]
fn lexing_fails_at_a_stray_character() {
    assert!(matches!(tokenize("let x = #;"), Err(8)));
    assert!(matches!(parse("let x = #;"), Err(ParseError::Lex(8))));
}

#[test]
fn binary_operators_group_from_the_left() {
    let e = parse_expression_only("1 - 2 - 3").expect("parses");
    match e {
        Expr::Binary { op: BinaryOp::Sub, left, right } => {
            assert_eq!(int_lit(&right), Some(3));
            match *left {
                Expr::Binary { op: BinaryOp::Sub, left: l2, right: r2 } => {
                    assert_eq!(int_lit(&l2), Some(1));
                    assert_eq!(int_lit(&r2), Some(2));
                }
                _ => panic!("left operand"),
            }
        }
        _ => panic!("binary expression"),
    }
}

#[test]
fn operators_share_one_precedence() {
    // `1 + 2 * 3` is `(1 + 2) * 3`.
    match parse_expression_only("1 + 2 * 3").expect("parses") {
        Expr::Binary { op: BinaryOp::Mul, left, .. } => {
            assert!(matches!(*left, Expr::Binary { op: BinaryOp::Add, .. }));
        }
        _ => panic!("multiplication at the top"),
    }
}

#[test]
fn prefix_and_suffixes() {
    // The prefix applies to `a`; the suffixes apply to `-a`, from the left.
    match parse_expression_only("-a.b[0](1, 2)").expect("parses") {
        Expr::Call { callee, args } => {
            assert_eq!(args.len(), 2);
            match *callee {
                Expr::Index { object, index } => {
                    assert_eq!(int_lit(&index), Some(0));
                    match *object {
                        Expr::Get { object, name } => {
                            assert_eq!(name, "b");
                            match *object {
                                Expr::Unary { op: UnaryOp::Neg, expr } => {
                                    assert!(matches!(*expr, Expr::Ident(ref n) if n == "a"))
                                }
                                _ => panic!("negation"),
                            }
                        }
                        _ => panic!("field access"),
                    }
                }
                _ => panic!("index"),
            }
        }
        _ => panic!("call at the top"),
    }
    match parse_expression_only("user?.name").expect("parses") {
        Expr::OptionalGet { object, name } => {
            assert!(matches!(*object, Expr::Ident(ref n) if n == "user"));
            assert_eq!(name, "name");
        }
        _ => panic!("optional get"),
    }
    match parse_expression_only("xs?[1]").expect("parses") {
        Expr::OptionalIndex { index, .. } => assert_eq!(int_lit(&index), Some(1)),
        _ => panic!("optional index"),
    }
}

#[test]
fn literals() {
    assert!(matches!(parse_expression_only("true"), Ok(Expr::Literal(Literal::Bool(true)))));
    assert!(matches!(parse_expression_only("null"), Ok(Expr::Literal(Literal::Null))));
    assert!(matches!(parse_expression_only("2.50"), Ok(Expr::Literal(Literal::Float(ref t))) if t == "2.50"));
    assert!(matches!(parse_expression_only("\"hi\""), Ok(Expr::Literal(Literal::Str(ref t))) if t == "hi"));
    match parse_expression_only("[1, 2, 3]").expect("parses") {
        Expr::List(items) => assert_eq!(items.len(), 3),
        _ => panic!("list"),
    }
    match parse_expression_only("{ \"a\": 1, b: 2 }").expect("parses") {
        Expr::Dict(entries) => {
            assert_eq!(entries.len(), 2);
            assert!(matches!(&entries[1].0, Expr::Literal(Literal::Str(k)) if k == "b"));
        }
        _ => panic!("map"),
    }
    match parse_expression_only("f\"Hi {name}!\"").expect("parses") {
        Expr::StringInterpolation(parts) => {
            assert_eq!(parts.len(), 3);
            assert!(matches!(&parts[1], Expr::Ident(n) if n == "name"));
        }
        _ => panic!("interpolated string"),
    }
}

#[test]
fn an_expression_ignores_what_follows_it() {
    assert!(matches!(parse_expression_only("1 $"), Ok(Expr::Literal(Literal::Int(1)))));
    assert!(matches!(parse_expression_only("x ) ("), Ok(Expr::Ident(ref n)) if n == "x"));
    assert!(matches!(parse_expression_only("$"), Err(ParseError::Syntax(0))));
}

#[test]
fn integer_literals_must_fit() {
    assert!(matches!(parse_expression_only("9223372036854775807"), Ok(Expr::Literal(Literal::Int(i64::MAX)))));
    assert!(matches!(parse_expression_only("9223372036854775808"), Err(ParseError::IntRange(0))));
    assert_eq!(digits_to_i64(&"0042".to_string()), Some(42));
    assert_eq!(digits_to_i64(&"4a".to_string()), None);
    assert_eq!(digits_to_i64(&"99999999999999999999".to_string()), None);
}

#[test]
fn statements_of_a_program() {
    let src = "import util from \"lib.novaw\";\n\
               let x: int | str = 1;\n\
               x = x + 1\n\
               @route(\"/\")\n\
               fn add(a: int, b) -> int { return a + b; }\n\
               if x > 1 { print(x); } else if x < 0 { print(0); } else { print(1); }\n\
               while x < 10 { x = x * 2; }\n\
               for item in [1, 2] { print(item); }\n\
               return;";
    let prog = parse(src).expect("parses");
    assert_eq!(prog.len(), 8);
    assert!(matches!(&prog[0], Stmt::Import { module, path: Some(p) } if module == "util" && p == "lib.novaw"));
    assert!(matches!(&prog[1], Stmt::Let { name, type_annotation: Some(t), .. } if name == "x" && t == "int | str"));
    assert!(matches!(&prog[2], Stmt::Assign { name, .. } if name == "x"));
    match &prog[3] {
        Stmt::FnDecl { name, params, return_type, body } => {
            assert_eq!(name, "add");
            assert_eq!(params.len(), 2);
            assert_eq!(params[0].1.as_deref(), Some("int"));
            assert!(params[1].1.is_none());
            assert_eq!(return_type.as_deref(), Some("int"));
            assert_eq!(body.len(), 1);
        }
        _ => panic!("function declaration"),
    }
    match &prog[4] {
        Stmt::If { else_branch: Some(e), .. } => {
            assert_eq!(e.len(), 1);
            assert!(matches!(&e[0], Stmt::If { else_branch: Some(_), .. }));
        }
        _ => panic!("if statement"),
    }
    assert!(matches!(&prog[5], Stmt::While { .. }));
    assert!(matches!(&prog[6], Stmt::For { var, .. } if var == "item"));
    assert!(matches!(&prog[7], Stmt::Return(None)));
}

#[test]
fn syntax_errors_name_a_token() {
    // `let` needs `=` after the name: the third token is `1`.
    assert!(matches!(parse("let x 1;"), Err(ParseError::Syntax(2))));
    // An unclosed block runs out of tokens.
    assert!(matches!(parse("while true { x = 1;"), Err(ParseError::Syntax(7))));
    assert!(matches!(parse_expression_only(""), Err(ParseError::Syntax(0))));
}

#[test]
fn error_messages() {
    assert_eq!(ParseError::Syntax(3).message(), "Unexpected token at position 3");
    assert_eq!(ParseError::Lex(10).message(), "Unexpected character at position 10");
    assert_eq!(ParseError::IntRange(0).message(), "Integer literal out of range at token 0");
}

#[test]
fn parser_object_gives_program_and_expression() {
    let p = NovaParser::new("1 + 2; 3").ok().expect("lexes");
    assert_eq!(p.program().ok().expect("program").len(), 2);
    assert!(matches!(p.expression(), Ok(Expr::Binary { op: BinaryOp::Add, .. })));
    assert!(matches!(NovaParser::new("$"), Err(ParseError::Lex(0))));
}

#[test]
fn empty_program() {
    assert_eq!(parse("").ok().expect("parses").len(), 0);
    assert_eq!(parse("  \n ").ok().expect("parses").len(), 0);
}
