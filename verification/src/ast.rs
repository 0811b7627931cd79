//! Abstract syntax of NovaWeb programs.

use crate::text::same_text;
use std::rc::Rc;
use vstd::prelude::*;

verus! {

/// A literal as it is written in a program.
///
/// A float literal keeps its source text: turning it into a number is
/// floating-point work, which the host of the interpreter performs.
pub enum Literal {
    Int(i64),
    Float(String),
    Bool(bool),
    Str(String),
    Null,
}

/// Binary operators. They associate to the left and share one precedence.
#[derive(Clone, Copy, PartialEq, Eq, Structural, Debug)]
pub enum BinaryOp {
    Add,
    Sub,
    Mul,
    Div,
    Eq,
    Ne,
    Lt,
    Gt,
    Le,
    Ge,
    And,
    Or,
}

/// Prefix operators.
#[derive(Clone, Copy, PartialEq, Eq, Structural, Debug)]
pub enum UnaryOp {
    Neg,
    Not,
}

pub enum Expr {
    Literal(Literal),
    Ident(String),
    Binary { op: BinaryOp, left: Box<Expr>, right: Box<Expr> },
    Unary { op: UnaryOp, expr: Box<Expr> },
    Call { callee: Box<Expr>, args: Vec<Expr> },
    List(Vec<Expr>),
    Dict(Vec<(Expr, Expr)>),
    Get { object: Box<Expr>, name: String },
    OptionalGet { object: Box<Expr>, name: String },
    Index { object: Box<Expr>, index: Box<Expr> },
    OptionalIndex { object: Box<Expr>, index: Box<Expr> },
    StringInterpolation(Vec<Expr>),
}

pub enum Stmt {
    Import { module: String, path: Option<String> },
    Let { name: String, type_annotation: Option<String>, init: Expr },
    Assign { name: String, value: Expr },
    If { condition: Expr, then_branch: Vec<Stmt>, else_branch: Option<Vec<Stmt>> },
    While { condition: Expr, body: Vec<Stmt> },
    For { var: String, iterable: Expr, body: Vec<Stmt> },
    Return(Option<Expr>),
    FnDecl {
        name: String,
        params: Vec<(String, Option<String>)>,
        return_type: Option<String>,
        body: Rc<Vec<Stmt>>,
    },
    Expr(Expr),
}


// ---------------------------------------------------------------------------
// The model of a program: the syntax with texts for strings.

pub ghost enum LitM {
    Int(i64),
    Float(Seq<char>),
    Bool(bool),
    Str(Seq<char>),
    Null,
}

pub ghost enum ExprM {
    Literal(LitM),
    Ident(Seq<char>),
    Binary(BinaryOp, Box<ExprM>, Box<ExprM>),
    Unary(UnaryOp, Box<ExprM>),
    Call(Box<ExprM>, Seq<ExprM>),
    List(Seq<ExprM>),
    Dict(Seq<(ExprM, ExprM)>),
    Get(Box<ExprM>, Seq<char>),
    OptionalGet(Box<ExprM>, Seq<char>),
    Index(Box<ExprM>, Box<ExprM>),
    OptionalIndex(Box<ExprM>, Box<ExprM>),
    StringInterpolation(Seq<ExprM>),
}

pub ghost enum StmtM {
    Import(Seq<char>, Option<Seq<char>>),
    Let(Seq<char>, Option<Seq<char>>, ExprM),
    Assign(Seq<char>, ExprM),
    If(ExprM, Seq<StmtM>, Option<Seq<StmtM>>),
    While(ExprM, Seq<StmtM>),
    For(Seq<char>, ExprM, Seq<StmtM>),
    Return(Option<ExprM>),
    FnDecl(Seq<char>, Seq<(Seq<char>, Option<Seq<char>>)>, Option<Seq<char>>, Seq<StmtM>),
    Expr(ExprM),
}

pub open spec fn view_lit(l: Literal) -> LitM {
    match l {
        Literal::Int(i) => LitM::Int(i),
        Literal::Float(t) => LitM::Float(t@),
        Literal::Bool(b) => LitM::Bool(b),
        Literal::Str(t) => LitM::Str(t@),
        Literal::Null => LitM::Null,
    }
}

pub open spec fn view_opt_str(o: Option<String>) -> Option<Seq<char>> {
    match o {
        Some(s) => Some(s@),
        None => None,
    }
}

pub open spec fn view_expr(e: Expr) -> ExprM
    decreases e,
{
    match e {
        Expr::Literal(l) => ExprM::Literal(view_lit(l)),
        Expr::Ident(n) => ExprM::Ident(n@),
        Expr::Binary { op, left, right } => ExprM::Binary(
            op,
            Box::new(view_expr(*left)),
            Box::new(view_expr(*right)),
        ),
        Expr::Unary { op, expr } => ExprM::Unary(op, Box::new(view_expr(*expr))),
        Expr::Call { callee, args } => ExprM::Call(Box::new(view_expr(*callee)), view_exprs(args@)),
        Expr::List(items) => ExprM::List(view_exprs(items@)),
        Expr::Dict(pairs) => ExprM::Dict(view_pairs(pairs@)),
        Expr::Get { object, name } => ExprM::Get(Box::new(view_expr(*object)), name@),
        Expr::OptionalGet { object, name } => ExprM::OptionalGet(Box::new(view_expr(*object)), name@),
        Expr::Index { object, index } => ExprM::Index(
            Box::new(view_expr(*object)),
            Box::new(view_expr(*index)),
        ),
        Expr::OptionalIndex { object, index } => ExprM::OptionalIndex(
            Box::new(view_expr(*object)),
            Box::new(view_expr(*index)),
        ),
        Expr::StringInterpolation(parts) => ExprM::StringInterpolation(view_exprs(parts@)),
    }
}

pub open spec fn view_exprs(s: Seq<Expr>) -> Seq<ExprM>
    decreases s,
{
    if s.len() == 0 {
        Seq::empty()
    } else {
        view_exprs(s.drop_last()).push(view_expr(s.last()))
    }
}

pub open spec fn view_pairs(s: Seq<(Expr, Expr)>) -> Seq<(ExprM, ExprM)>
    decreases s,
{
    if s.len() == 0 {
        Seq::empty()
    } else {
        view_pairs(s.drop_last()).push((view_expr(s.last().0), view_expr(s.last().1)))
    }
}

pub open spec fn view_params(s: Seq<(String, Option<String>)>) -> Seq<(Seq<char>, Option<Seq<char>>)> {
    s.map_values(|p: (String, Option<String>)| (p.0@, view_opt_str(p.1)))
}

pub open spec fn view_stmt(s: Stmt) -> StmtM
    decreases s,
{
    match s {
        Stmt::Import { module, path } => StmtM::Import(module@, view_opt_str(path)),
        Stmt::Let { name, type_annotation, init } => StmtM::Let(
            name@,
            view_opt_str(type_annotation),
            view_expr(init),
        ),
        Stmt::Assign { name, value } => StmtM::Assign(name@, view_expr(value)),
        Stmt::If { condition, then_branch, else_branch } => StmtM::If(
            view_expr(condition),
            view_stmts(then_branch@),
            match else_branch {
                Some(b) => Some(view_stmts(b@)),
                None => None,
            },
        ),
        Stmt::While { condition, body } => StmtM::While(view_expr(condition), view_stmts(body@)),
        Stmt::For { var, iterable, body } => StmtM::For(
            var@,
            view_expr(iterable),
            view_stmts(body@),
        ),
        Stmt::Return(value) => StmtM::Return(
            match value {
                Some(x) => Some(view_expr(x)),
                None => None,
            },
        ),
        Stmt::FnDecl { name, params, return_type, body } => StmtM::FnDecl(
            name@,
            view_params(params@),
            view_opt_str(return_type),
            view_stmts((*body)@),
        ),
        Stmt::Expr(x) => StmtM::Expr(view_expr(x)),
    }
}

pub open spec fn view_stmts(s: Seq<Stmt>) -> Seq<StmtM>
    decreases s,
{
    if s.len() == 0 {
        Seq::empty()
    } else {
        view_stmts(s.drop_last()).push(view_stmt(s.last()))
    }
}

pub broadcast proof fn lemma_view_exprs_len(s: Seq<Expr>)
    ensures
        #[trigger] view_exprs(s).len() == s.len(),
    decreases s.len(),
{
    if s.len() > 0 {
        lemma_view_exprs_len(s.drop_last());
    }
}

pub broadcast proof fn lemma_view_exprs_index(s: Seq<Expr>, i: int)
    requires
        0 <= i < s.len(),
    ensures
        #[trigger] view_exprs(s)[i] == view_expr(s[i]),
    decreases s.len(),
{
    lemma_view_exprs_len(s.drop_last());
    if i < s.len() - 1 {
        lemma_view_exprs_index(s.drop_last(), i);
    }
}

pub broadcast proof fn lemma_view_pairs_len(s: Seq<(Expr, Expr)>)
    ensures
        #[trigger] view_pairs(s).len() == s.len(),
    decreases s.len(),
{
    if s.len() > 0 {
        lemma_view_pairs_len(s.drop_last());
    }
}

pub broadcast proof fn lemma_view_pairs_index(s: Seq<(Expr, Expr)>, i: int)
    requires
        0 <= i < s.len(),
    ensures
        #[trigger] view_pairs(s)[i] == (view_expr(s[i].0), view_expr(s[i].1)),
    decreases s.len(),
{
    lemma_view_pairs_len(s.drop_last());
    if i < s.len() - 1 {
        lemma_view_pairs_index(s.drop_last(), i);
    }
}

pub broadcast proof fn lemma_view_stmts_len(s: Seq<Stmt>)
    ensures
        #[trigger] view_stmts(s).len() == s.len(),
    decreases s.len(),
{
    if s.len() > 0 {
        lemma_view_stmts_len(s.drop_last());
    }
}

pub broadcast proof fn lemma_view_stmts_index(s: Seq<Stmt>, i: int)
    requires
        0 <= i < s.len(),
    ensures
        #[trigger] view_stmts(s)[i] == view_stmt(s[i]),
    decreases s.len(),
{
    lemma_view_stmts_len(s.drop_last());
    if i < s.len() - 1 {
        lemma_view_stmts_index(s.drop_last(), i);
    }
}

pub broadcast group group_ast_views {
    lemma_view_exprs_len,
    lemma_view_exprs_index,
    lemma_view_pairs_len,
    lemma_view_pairs_index,
    lemma_view_stmts_len,
    lemma_view_stmts_index,
}

// ---------------------------------------------------------------------------
// Structural equality: two programs are equal when they are written alike.

pub open spec fn lit_eq(a: Literal, b: Literal) -> bool {
    match (a, b) {
        (Literal::Int(x), Literal::Int(y)) => x == y,
        (Literal::Float(x), Literal::Float(y)) => x@ == y@,
        (Literal::Bool(x), Literal::Bool(y)) => x == y,
        (Literal::Str(x), Literal::Str(y)) => x@ == y@,
        (Literal::Null, Literal::Null) => true,
        _ => false,
    }
}

pub open spec fn opt_str_eq(a: Option<String>, b: Option<String>) -> bool {
    match (a, b) {
        (Some(x), Some(y)) => x@ == y@,
        (None, None) => true,
        _ => false,
    }
}

pub open spec fn expr_eq(a: Expr, b: Expr) -> bool
    decreases a,
{
    match (a, b) {
        (Expr::Literal(x), Expr::Literal(y)) => lit_eq(x, y),
        (Expr::Ident(x), Expr::Ident(y)) => x@ == y@,
        (Expr::Binary { op, left, right }, Expr::Binary { op: op2, left: left2, right: right2 }) => op
            == op2 && expr_eq(*left, *left2) && expr_eq(*right, *right2),
        (Expr::Unary { op, expr }, Expr::Unary { op: op2, expr: expr2 }) => op == op2 && expr_eq(
            *expr,
            *expr2,
        ),
        (Expr::Call { callee, args }, Expr::Call { callee: callee2, args: args2 }) => expr_eq(
            *callee,
            *callee2,
        ) && exprs_eq(args@, args2@),
        (Expr::List(x), Expr::List(y)) => exprs_eq(x@, y@),
        (Expr::Dict(x), Expr::Dict(y)) => pairs_eq(x@, y@),
        (Expr::Get { object, name }, Expr::Get { object: object2, name: name2 }) => expr_eq(
            *object,
            *object2,
        ) && name@ == name2@,
        (
            Expr::OptionalGet { object, name },
            Expr::OptionalGet { object: object2, name: name2 },
        ) => expr_eq(*object, *object2) && name@ == name2@,
        (Expr::Index { object, index }, Expr::Index { object: object2, index: index2 }) => expr_eq(
            *object,
            *object2,
        ) && expr_eq(*index, *index2),
        (
            Expr::OptionalIndex { object, index },
            Expr::OptionalIndex { object: object2, index: index2 },
        ) => expr_eq(*object, *object2) && expr_eq(*index, *index2),
        (Expr::StringInterpolation(x), Expr::StringInterpolation(y)) => exprs_eq(x@, y@),
        _ => false,
    }
}

pub open spec fn exprs_eq(a: Seq<Expr>, b: Seq<Expr>) -> bool
    decreases a,
{
    a.len() == b.len() && forall|i: int| 0 <= i < a.len() ==> expr_eq(a[i], b[i])
}

pub open spec fn pairs_eq(a: Seq<(Expr, Expr)>, b: Seq<(Expr, Expr)>) -> bool
    decreases a,
{
    a.len() == b.len() && forall|i: int|
        0 <= i < a.len() ==> expr_eq(a[i].0, b[i].0) && expr_eq(a[i].1, b[i].1)
}

pub open spec fn opt_expr_eq(a: Option<Expr>, b: Option<Expr>) -> bool
    decreases a,
{
    match (a, b) {
        (Some(x), Some(y)) => expr_eq(x, y),
        (None, None) => true,
        _ => false,
    }
}

pub open spec fn params_eq(a: Seq<(String, Option<String>)>, b: Seq<(String, Option<String>)>) -> bool {
    a.len() == b.len() && forall|i: int|
        0 <= i < a.len() ==> a[i].0@ == b[i].0@ && opt_str_eq(a[i].1, b[i].1)
}

pub open spec fn stmt_eq(a: Stmt, b: Stmt) -> bool
    decreases a,
{
    match (a, b) {
        (Stmt::Import { module, path }, Stmt::Import { module: module2, path: path2 }) => module@
            == module2@ && opt_str_eq(path, path2),
        (
            Stmt::Let { name, type_annotation, init },
            Stmt::Let { name: name2, type_annotation: type_annotation2, init: init2 },
        ) => name@ == name2@ && opt_str_eq(type_annotation, type_annotation2) && expr_eq(
            init,
            init2,
        ),
        (Stmt::Assign { name, value }, Stmt::Assign { name: name2, value: value2 }) => name@
            == name2@ && expr_eq(value, value2),
        (
            Stmt::If { condition, then_branch, else_branch },
            Stmt::If { condition: condition2, then_branch: then_branch2, else_branch: else_branch2 },
        ) => expr_eq(condition, condition2) && stmts_eq(then_branch@, then_branch2@) && match (
            else_branch,
            else_branch2,
        ) {
            (Some(x), Some(y)) => stmts_eq(x@, y@),
            (None, None) => true,
            _ => false,
        },
        (Stmt::While { condition, body }, Stmt::While { condition: condition2, body: body2 }) =>
            expr_eq(condition, condition2) && stmts_eq(body@, body2@),
        (
            Stmt::For { var, iterable, body },
            Stmt::For { var: var2, iterable: iterable2, body: body2 },
        ) => var@ == var2@ && expr_eq(iterable, iterable2) && stmts_eq(body@, body2@),
        (Stmt::Return(x), Stmt::Return(y)) => opt_expr_eq(x, y),
        (
            Stmt::FnDecl { name, params, return_type, body },
            Stmt::FnDecl { name: name2, params: params2, return_type: return_type2, body: body2 },
        ) => name@ == name2@ && params_eq(params@, params2@) && opt_str_eq(
            return_type,
            return_type2,
        ) && stmts_eq((*body)@, (*body2)@),
        (Stmt::Expr(x), Stmt::Expr(y)) => expr_eq(x, y),
        _ => false,
    }
}

pub open spec fn stmts_eq(a: Seq<Stmt>, b: Seq<Stmt>) -> bool
    decreases a,
{
    a.len() == b.len() && forall|i: int| 0 <= i < a.len() ==> stmt_eq(a[i], b[i])
}

fn opt_str_equal(a: &Option<String>, b: &Option<String>) -> (r: bool)
    ensures
        r == opt_str_eq(*a, *b),
{
    match (a, b) {
        (Some(x), Some(y)) => same_text(x.as_str(), y.as_str()),
        (None, None) => true,
        _ => false,
    }
}

fn lit_equal(a: &Literal, b: &Literal) -> (r: bool)
    ensures
        r == lit_eq(*a, *b),
{
    match (a, b) {
        (Literal::Int(x), Literal::Int(y)) => *x == *y,
        (Literal::Float(x), Literal::Float(y)) => same_text(x.as_str(), y.as_str()),
        (Literal::Bool(x), Literal::Bool(y)) => *x == *y,
        (Literal::Str(x), Literal::Str(y)) => same_text(x.as_str(), y.as_str()),
        (Literal::Null, Literal::Null) => true,
        _ => false,
    }
}

/// Whether two expressions are written alike.
pub fn expr_equal(a: &Expr, b: &Expr) -> (r: bool)
    ensures
        r == expr_eq(*a, *b),
    decreases a,
{
    match (a, b) {
        (Expr::Literal(x), Expr::Literal(y)) => lit_equal(x, y),
        (Expr::Ident(x), Expr::Ident(y)) => same_text(x.as_str(), y.as_str()),
        (Expr::Binary { op, left, right }, Expr::Binary { op: op2, left: left2, right: right2 }) => {
            *op == *op2 && expr_equal(left, left2) && expr_equal(right, right2)
        },
        (Expr::Unary { op, expr }, Expr::Unary { op: op2, expr: expr2 }) => {
            *op == *op2 && expr_equal(expr, expr2)
        },
        (Expr::Call { callee, args }, Expr::Call { callee: callee2, args: args2 }) => {
            expr_equal(callee, callee2) && exprs_equal(args, args2)
        },
        (Expr::List(x), Expr::List(y)) => exprs_equal(x, y),
        (Expr::Dict(x), Expr::Dict(y)) => pairs_equal(x, y),
        (Expr::Get { object, name }, Expr::Get { object: object2, name: name2 }) => {
            expr_equal(object, object2) && same_text(name.as_str(), name2.as_str())
        },
        (
            Expr::OptionalGet { object, name },
            Expr::OptionalGet { object: object2, name: name2 },
        ) => { expr_equal(object, object2) && same_text(name.as_str(), name2.as_str()) },
        (Expr::Index { object, index }, Expr::Index { object: object2, index: index2 }) => {
            expr_equal(object, object2) && expr_equal(index, index2)
        },
        (
            Expr::OptionalIndex { object, index },
            Expr::OptionalIndex { object: object2, index: index2 },
        ) => { expr_equal(object, object2) && expr_equal(index, index2) },
        (Expr::StringInterpolation(x), Expr::StringInterpolation(y)) => exprs_equal(x, y),
        _ => false,
    }
}

/// Whether two lists of expressions are written alike.
pub fn exprs_equal(a: &Vec<Expr>, b: &Vec<Expr>) -> (r: bool)
    ensures
        r == exprs_eq(a@, b@),
    decreases a,
{
    if a.len() != b.len() {
        return false;
    }
    let mut i: usize = 0;
    while i < a.len()
        invariant
            a.len() == b.len(),
            i <= a.len(),
            forall|j: int| 0 <= j < i ==> expr_eq(a@[j], b@[j]),
        decreases a.len() - i,
    {
        proof {
            assert(decreases_to!(*a => (*a)[i as int]));
        }
        if !expr_equal(&a[i], &b[i]) {
            return false;
        }
        i = i + 1;
    }
    true
}

fn pairs_equal(a: &Vec<(Expr, Expr)>, b: &Vec<(Expr, Expr)>) -> (r: bool)
    ensures
        r == pairs_eq(a@, b@),
    decreases a,
{
    if a.len() != b.len() {
        return false;
    }
    let mut i: usize = 0;
    while i < a.len()
        invariant
            a.len() == b.len(),
            i <= a.len(),
            forall|j: int| 0 <= j < i ==> expr_eq(a@[j].0, b@[j].0) && expr_eq(a@[j].1, b@[j].1),
        decreases a.len() - i,
    {
        proof {
            assert(decreases_to!(*a => (*a)[i as int]));
            assert(decreases_to!((*a)[i as int] => (*a)[i as int].0));
            assert(decreases_to!((*a)[i as int] => (*a)[i as int].1));
        }
        if !expr_equal(&a[i].0, &b[i].0) || !expr_equal(&a[i].1, &b[i].1) {
            return false;
        }
        i = i + 1;
    }
    true
}

fn opt_expr_equal(a: &Option<Expr>, b: &Option<Expr>) -> (r: bool)
    ensures
        r == opt_expr_eq(*a, *b),
    decreases a,
{
    match (a, b) {
        (Some(x), Some(y)) => expr_equal(x, y),
        (None, None) => true,
        _ => false,
    }
}

fn params_equal(a: &Vec<(String, Option<String>)>, b: &Vec<(String, Option<String>)>) -> (r: bool)
    ensures
        r == params_eq(a@, b@),
{
    if a.len() != b.len() {
        return false;
    }
    let mut i: usize = 0;
    while i < a.len()
        invariant
            a.len() == b.len(),
            i <= a.len(),
            forall|j: int| 0 <= j < i ==> a@[j].0@ == b@[j].0@ && opt_str_eq(a@[j].1, b@[j].1),
        decreases a.len() - i,
    {
        if !same_text(a[i].0.as_str(), b[i].0.as_str()) || !opt_str_equal(&a[i].1, &b[i].1) {
            return false;
        }
        i = i + 1;
    }
    true
}

/// Whether two statements are written alike.
pub fn stmt_equal(a: &Stmt, b: &Stmt) -> (r: bool)
    ensures
        r == stmt_eq(*a, *b),
    decreases a,
{
    match (a, b) {
        (Stmt::Import { module, path }, Stmt::Import { module: module2, path: path2 }) => {
            same_text(module.as_str(), module2.as_str()) && opt_str_equal(path, path2)
        },
        (
            Stmt::Let { name, type_annotation, init },
            Stmt::Let { name: name2, type_annotation: type_annotation2, init: init2 },
        ) => {
            same_text(name.as_str(), name2.as_str()) && opt_str_equal(
                type_annotation,
                type_annotation2,
            ) && expr_equal(init, init2)
        },
        (Stmt::Assign { name, value }, Stmt::Assign { name: name2, value: value2 }) => {
            same_text(name.as_str(), name2.as_str()) && expr_equal(value, value2)
        },
        (
            Stmt::If { condition, then_branch, else_branch },
            Stmt::If { condition: condition2, then_branch: then_branch2, else_branch: else_branch2 },
        ) => {
            expr_equal(condition, condition2) && stmts_equal(then_branch, then_branch2) && match (
                else_branch,
                else_branch2,
            ) {
                (Some(x), Some(y)) => stmts_equal(x, y),
                (None, None) => true,
                _ => false,
            }
        },
        (Stmt::While { condition, body }, Stmt::While { condition: condition2, body: body2 }) => {
            expr_equal(condition, condition2) && stmts_equal(body, body2)
        },
        (
            Stmt::For { var, iterable, body },
            Stmt::For { var: var2, iterable: iterable2, body: body2 },
        ) => {
            same_text(var.as_str(), var2.as_str()) && expr_equal(iterable, iterable2)
                && stmts_equal(body, body2)
        },
        (Stmt::Return(x), Stmt::Return(y)) => opt_expr_equal(x, y),
        (
            Stmt::FnDecl { name, params, return_type, body },
            Stmt::FnDecl { name: name2, params: params2, return_type: return_type2, body: body2 },
        ) => {
            same_text(name.as_str(), name2.as_str()) && params_equal(params, params2)
                && opt_str_equal(return_type, return_type2) && stmts_equal(body, body2)
        },
        (Stmt::Expr(x), Stmt::Expr(y)) => expr_equal(x, y),
        _ => false,
    }
}

/// Whether two blocks of statements are written alike.
pub fn stmts_equal(a: &Vec<Stmt>, b: &Vec<Stmt>) -> (r: bool)
    ensures
        r == stmts_eq(a@, b@),
    decreases a,
{
    if a.len() != b.len() {
        return false;
    }
    let mut i: usize = 0;
    while i < a.len()
        invariant
            a.len() == b.len(),
            i <= a.len(),
            forall|j: int| 0 <= j < i ==> stmt_eq(a@[j], b@[j]),
        decreases a.len() - i,
    {
        proof {
            assert(decreases_to!(*a => (*a)[i as int]));
        }
        if !stmt_equal(&a[i], &b[i]) {
            return false;
        }
        i = i + 1;
    }
    true
}

} // verus!
