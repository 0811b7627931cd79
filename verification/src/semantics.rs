//! The meaning of NovaWeb programs, as spec functions over the value model.
//!
//! Outside work (printing, files, the database, floating-point arithmetic) is
//! asked of the host. A run is described for every sequence of host replies: an
//! oracle gives the reply to the request made at each position, and each
//! function returns its result, the scopes afterwards and the requests it made.

use crate::ast::{BinaryOp, Expr, Literal, Stmt, UnaryOp};
use crate::environment::{env_assign, env_define, env_get, Env, Scope};
use crate::model::{string_views, Val};
use crate::template::render_entries;
use crate::text::Order;
use crate::value::{
    add_overflows, display, div_overflows, insert_entry, lookup, mul_overflows, negate_overflows,
    spec_add, spec_compare, spec_div, spec_mul, spec_negate, spec_sub, sub_overflows, truthy,
    val_eq, ArithError, Builtin,
};
use vstd::prelude::*;

verus! {

/// Floating-point operations that the host performs.
#[derive(Clone, Copy, PartialEq, Eq, Structural, Debug)]
pub enum FloatOp {
    Add,
    Sub,
    Mul,
    Div,
    Lt,
    Gt,
    Le,
    Ge,
    Neg,
}

/// The model of a request to the host.
pub ghost enum Request {
    Print(Seq<Val>),
    ReadFile(Seq<char>),
    DbConnect(Seq<char>),
    DbQuery(Seq<char>, Seq<Val>),
    DbExecute(Seq<char>, Seq<Val>),
    Float(FloatOp, Val, Val),
    ParseFloat(Seq<char>),
}

/// The model of a runtime error.
pub ghost enum Fault {
    Undefined(Seq<char>),
    InvalidOperands(BinaryOp),
    DivisionByZero,
    InvalidNegation,
    NotAMap,
    InvalidIndex,
    Arity(nat, nat),
    NotCallable,
    KeyNotString,
    NotIterable,
    Overflow,
    OutOfFuel,
}

/// How a statement ends: normally, or by `return` with a value.
pub ghost enum Flow {
    Normal,
    Return(Val),
}

/// The reply of the host to the request made at each position.
pub type Oracle = spec_fn(nat) -> Val;

/// What a step of a run gives: its result, the scopes afterwards, the requests made.
pub ghost struct Out<T> {
    pub res: Result<T, Fault>,
    pub env: Env,
    pub calls: Seq<Request>,
}

/// A step that makes no request and fails.
pub open spec fn fail<T>(env: Env, f: Fault) -> Out<T> {
    Out { res: Err(f), env, calls: Seq::empty() }
}

/// A step that makes no request and succeeds.
pub open spec fn done<T>(env: Env, v: T) -> Out<T> {
    Out { res: Ok(v), env, calls: Seq::empty() }
}

pub open spec fn float_op_of(op: BinaryOp) -> FloatOp {
    match op {
        BinaryOp::Add => FloatOp::Add,
        BinaryOp::Sub => FloatOp::Sub,
        BinaryOp::Mul => FloatOp::Mul,
        BinaryOp::Div => FloatOp::Div,
        BinaryOp::Lt => FloatOp::Lt,
        BinaryOp::Gt => FloatOp::Gt,
        BinaryOp::Le => FloatOp::Le,
        _ => FloatOp::Ge,
    }
}

/// Whether a comparison operator holds of an order.
pub open spec fn order_holds(op: BinaryOp, ord: Order) -> bool {
    match op {
        BinaryOp::Lt => ord == Order::Less,
        BinaryOp::Gt => ord == Order::Greater,
        BinaryOp::Le => ord != Order::Greater,
        _ => ord != Order::Less,
    }
}

/// The result of an arithmetic operation; floating-point work goes to the host.
pub open spec fn arith_outcome(
    res: Result<Val, ArithError>,
    op: BinaryOp,
    l: Val,
    r: Val,
    o: Oracle,
    pos: nat,
) -> (Result<Val, Fault>, Seq<Request>) {
    match res {
        Ok(v) => (Ok(v), Seq::empty()),
        Err(ArithError::NeedsFloat) => (Ok(o(pos)), seq![Request::Float(float_op_of(op), l, r)]),
        Err(ArithError::DivisionByZero) => (Err(Fault::DivisionByZero), Seq::empty()),
        Err(ArithError::InvalidTypes) => (Err(Fault::InvalidOperands(op)), Seq::empty()),
    }
}

/// A binary operator applied to two evaluated operands.
pub open spec fn apply_binary(op: BinaryOp, l: Val, r: Val, o: Oracle, pos: nat) -> (
    Result<Val, Fault>,
    Seq<Request>,
) {
    match op {
        BinaryOp::Add => if add_overflows(l, r) {
            (Err(Fault::Overflow), Seq::empty())
        } else {
            arith_outcome(spec_add(l, r), op, l, r, o, pos)
        },
        BinaryOp::Sub => if sub_overflows(l, r) {
            (Err(Fault::Overflow), Seq::empty())
        } else {
            arith_outcome(spec_sub(l, r), op, l, r, o, pos)
        },
        BinaryOp::Mul => if mul_overflows(l, r) {
            (Err(Fault::Overflow), Seq::empty())
        } else {
            arith_outcome(spec_mul(l, r), op, l, r, o, pos)
        },
        BinaryOp::Div => if div_overflows(l, r) {
            (Err(Fault::Overflow), Seq::empty())
        } else {
            arith_outcome(spec_div(l, r), op, l, r, o, pos)
        },
        BinaryOp::Eq => (Ok(Val::Bool(val_eq(l, r))), Seq::empty()),
        BinaryOp::Ne => (Ok(Val::Bool(!val_eq(l, r))), Seq::empty()),
        BinaryOp::And => (Ok(Val::Bool(truthy(l) && truthy(r))), Seq::empty()),
        BinaryOp::Or => (Ok(Val::Bool(truthy(l) || truthy(r))), Seq::empty()),
        _ => match spec_compare(l, r) {
            Err(_) => (Ok(o(pos)), seq![Request::Float(float_op_of(op), l, r)]),
            Ok(None) => (Ok(Val::Bool(false)), Seq::empty()),
            Ok(Some(ord)) => (Ok(Val::Bool(order_holds(op, ord))), Seq::empty()),
        },
    }
}

/// A prefix operator applied to an evaluated operand.
pub open spec fn apply_unary(op: UnaryOp, v: Val, o: Oracle, pos: nat) -> (
    Result<Val, Fault>,
    Seq<Request>,
) {
    match op {
        UnaryOp::Neg => if negate_overflows(v) {
            (Err(Fault::Overflow), Seq::empty())
        } else {
            match spec_negate(v) {
                Ok(x) => (Ok(x), Seq::empty()),
                Err(ArithError::NeedsFloat) => (
                    Ok(o(pos)),
                    seq![Request::Float(FloatOp::Neg, v, Val::Null)],
                ),
                Err(_) => (Err(Fault::InvalidNegation), Seq::empty()),
            }
        },
        UnaryOp::Not => (Ok(Val::Bool(!truthy(v))), Seq::empty()),
    }
}

/// `object.name`.
pub open spec fn get_field(obj: Val, name: Seq<char>) -> Result<Val, Fault> {
    match obj {
        Val::Dict(m) => match lookup(m, name) {
            Some(v) => Ok(v),
            None => Ok(Val::Null),
        },
        _ => Err(Fault::NotAMap),
    }
}

/// `object[index]`: negative list indices count from the end; a missing element or key is null.
pub open spec fn index_value(obj: Val, idx: Val) -> Result<Val, Fault> {
    match (obj, idx) {
        (Val::List(l), Val::Int(i)) => if i < 0 {
            let j = l.len() + i;
            if 0 <= j < l.len() {
                Ok(l[j])
            } else {
                Ok(Val::Null)
            }
        } else if i < l.len() {
            Ok(l[i as int])
        } else {
            Ok(Val::Null)
        },
        (Val::Dict(m), Val::Str(k)) => match lookup(m, k) {
            Some(v) => Ok(v),
            None => Ok(Val::Null),
        },
        _ => Err(Fault::InvalidIndex),
    }
}

/// How a value is passed to the database: scalars as they are, anything else as null.
pub open spec fn sql_param(v: Val) -> Val {
    match v {
        Val::Int(_) => v,
        Val::Float(..) => v,
        Val::Str(_) => v,
        Val::Bool(_) => v,
        _ => Val::Null,
    }
}

pub open spec fn sql_params_of(l: Seq<Val>) -> Seq<Val> {
    l.map_values(|v: Val| sql_param(v))
}

/// The parameters of a database call: the items of a list second argument, or the
/// second argument alone.
pub open spec fn sql_params(args: Seq<Val>) -> Seq<Val> {
    if args.len() > 1 {
        match args[1] {
            Val::List(l) => sql_params_of(l),
            other => seq![sql_param(other)],
        }
    } else {
        Seq::empty()
    }
}

/// The number of bytes of a text in UTF-8.
pub open spec fn utf8_len(s: Seq<char>) -> nat {
    vstd::utf8::encode_utf8(s).len()
}

/// A builtin function applied to its arguments.
pub open spec fn call_builtin(b: Builtin, args: Seq<Val>, o: Oracle, pos: nat) -> (Val, Seq<Request>) {
    match b {
        Builtin::Print => (Val::Null, seq![Request::Print(args)]),
        Builtin::Render => if args.len() < 2 {
            (Val::Null, Seq::empty())
        } else {
            match (args[0], args[1]) {
                (Val::Str(t), Val::Dict(ctx)) => (Val::Str(render_entries(t, ctx)), Seq::empty()),
                _ => (Val::Null, Seq::empty()),
            }
        },
        Builtin::ReadFile => if args.len() == 0 {
            (Val::Null, Seq::empty())
        } else {
            match args[0] {
                Val::Str(p) => (o(pos), seq![Request::ReadFile(p)]),
                _ => (Val::Null, Seq::empty()),
            }
        },
        Builtin::Len => if args.len() == 0 {
            (Val::Null, Seq::empty())
        } else {
            match args[0] {
                Val::Str(s) => (Val::Int((utf8_len(s) as usize) as i64), Seq::empty()),
                Val::List(l) => (Val::Int(l.len() as i64), Seq::empty()),
                Val::Dict(m) => (Val::Int(m.len() as i64), Seq::empty()),
                _ => (Val::Int(0), Seq::empty()),
            }
        },
        Builtin::DbConnect => if args.len() == 0 {
            (Val::Null, Seq::empty())
        } else {
            match args[0] {
                Val::Str(u) => (o(pos), seq![Request::DbConnect(u)]),
                _ => (Val::Null, Seq::empty()),
            }
        },
        Builtin::DbQuery => if args.len() == 0 {
            (Val::Null, Seq::empty())
        } else {
            match args[0] {
                Val::Str(sql) => (o(pos), seq![Request::DbQuery(sql, sql_params(args))]),
                _ => (Val::Null, Seq::empty()),
            }
        },
        Builtin::DbExecute => if args.len() == 0 {
            (Val::Null, Seq::empty())
        } else {
            match args[0] {
                Val::Str(sql) => (o(pos), seq![Request::DbExecute(sql, sql_params(args))]),
                _ => (Val::Null, Seq::empty()),
            }
        },
    }
}

/// The scope of a call: each parameter bound to its argument, in order.
pub open spec fn bind_params(params: Seq<Seq<char>>, args: Seq<Val>) -> Scope
    decreases params.len(),
{
    if params.len() == 0 {
        Seq::empty()
    } else {
        insert_entry(
            bind_params(params.drop_last(), args.drop_last()),
            params.last(),
            args.last(),
        )
    }
}

/// The parameter names of a function declaration.
pub open spec fn param_names(params: Seq<(String, Option<String>)>) -> Seq<Seq<char>> {
    params.map_values(|p: (String, Option<String>)| p.0@)
}

/// Evaluates an expression.
pub open spec fn eval(env: Env, e: Expr, fuel: nat, o: Oracle, pos: nat) -> Out<Val>
    decreases fuel, 0nat,
{
    if fuel == 0 {
        fail(env, Fault::OutOfFuel)
    } else {
        let f = (fuel - 1) as nat;
        match e {
            Expr::Literal(lit) => match lit {
                Literal::Int(i) => done(env, Val::Int(i)),
                Literal::Float(t) => Out {
                    res: Ok(o(pos)),
                    env,
                    calls: seq![Request::ParseFloat(t@)],
                },
                Literal::Bool(b) => done(env, Val::Bool(b)),
                Literal::Str(s) => done(env, Val::Str(s@)),
                Literal::Null => done(env, Val::Null),
            },
            Expr::Ident(name) => match env_get(env, name@) {
                Some(v) => done(env, v),
                None => fail(env, Fault::Undefined(name@)),
            },
            Expr::Binary { op, left, right } => {
                let a = eval(env, *left, f, o, pos);
                match a.res {
                    Err(x) => Out { res: Err(x), env: a.env, calls: a.calls },
                    Ok(l) => {
                        let b = eval(a.env, *right, f, o, pos + a.calls.len());
                        match b.res {
                            Err(x) => Out { res: Err(x), env: b.env, calls: a.calls + b.calls },
                            Ok(r) => {
                                let c = apply_binary(op, l, r, o, pos + a.calls.len() + b.calls.len());
                                Out { res: c.0, env: b.env, calls: a.calls + b.calls + c.1 }
                            },
                        }
                    },
                }
            },
            Expr::Unary { op, expr } => {
                let a = eval(env, *expr, f, o, pos);
                match a.res {
                    Err(x) => Out { res: Err(x), env: a.env, calls: a.calls },
                    Ok(v) => {
                        let c = apply_unary(op, v, o, pos + a.calls.len());
                        Out { res: c.0, env: a.env, calls: a.calls + c.1 }
                    },
                }
            },
            Expr::Call { callee, args } => {
                let a = eval(env, *callee, f, o, pos);
                match a.res {
                    Err(x) => Out { res: Err(x), env: a.env, calls: a.calls },
                    Ok(c) => {
                        let b = eval_list(a.env, args@, 0, f, o, pos + a.calls.len());
                        match b.res {
                            Err(x) => Out { res: Err(x), env: b.env, calls: a.calls + b.calls },
                            Ok(vs) => {
                                let d = call_value(
                                    b.env,
                                    c,
                                    vs,
                                    f,
                                    o,
                                    pos + a.calls.len() + b.calls.len(),
                                );
                                Out { res: d.res, env: d.env, calls: a.calls + b.calls + d.calls }
                            },
                        }
                    },
                }
            },
            Expr::List(items) => {
                let a = eval_list(env, items@, 0, f, o, pos);
                match a.res {
                    Err(x) => Out { res: Err(x), env: a.env, calls: a.calls },
                    Ok(vs) => Out { res: Ok(Val::List(vs)), env: a.env, calls: a.calls },
                }
            },
            Expr::Dict(pairs) => {
                let a = eval_pairs(env, pairs@, 0, Seq::empty(), f, o, pos);
                match a.res {
                    Err(x) => Out { res: Err(x), env: a.env, calls: a.calls },
                    Ok(m) => Out { res: Ok(Val::Dict(m)), env: a.env, calls: a.calls },
                }
            },
            Expr::Get { object, name } => {
                let a = eval(env, *object, f, o, pos);
                match a.res {
                    Err(x) => Out { res: Err(x), env: a.env, calls: a.calls },
                    Ok(v) => Out { res: get_field(v, name@), env: a.env, calls: a.calls },
                }
            },
            Expr::OptionalGet { object, name } => {
                let a = eval(env, *object, f, o, pos);
                match a.res {
                    Err(x) => Out { res: Err(x), env: a.env, calls: a.calls },
                    Ok(v) => Out {
                        res: if v is Null {
                            Ok(Val::Null)
                        } else {
                            get_field(v, name@)
                        },
                        env: a.env,
                        calls: a.calls,
                    },
                }
            },
            Expr::Index { object, index } => {
                let a = eval(env, *object, f, o, pos);
                match a.res {
                    Err(x) => Out { res: Err(x), env: a.env, calls: a.calls },
                    Ok(v) => {
                        let b = eval(a.env, *index, f, o, pos + a.calls.len());
                        match b.res {
                            Err(x) => Out { res: Err(x), env: b.env, calls: a.calls + b.calls },
                            Ok(i) => Out {
                                res: index_value(v, i),
                                env: b.env,
                                calls: a.calls + b.calls,
                            },
                        }
                    },
                }
            },
            Expr::OptionalIndex { object, index } => {
                let a = eval(env, *object, f, o, pos);
                match a.res {
                    Err(x) => Out { res: Err(x), env: a.env, calls: a.calls },
                    Ok(v) => if v is Null {
                        Out { res: Ok(Val::Null), env: a.env, calls: a.calls }
                    } else {
                        let b = eval(a.env, *index, f, o, pos + a.calls.len());
                        match b.res {
                            Err(x) => Out { res: Err(x), env: b.env, calls: a.calls + b.calls },
                            Ok(i) => Out {
                                res: index_value(v, i),
                                env: b.env,
                                calls: a.calls + b.calls,
                            },
                        }
                    },
                }
            },
            Expr::StringInterpolation(parts) => {
                let a = eval_parts(env, parts@, 0, Seq::empty(), f, o, pos);
                match a.res {
                    Err(x) => Out { res: Err(x), env: a.env, calls: a.calls },
                    Ok(t) => Out { res: Ok(Val::Str(t)), env: a.env, calls: a.calls },
                }
            },
        }
    }
}

/// Evaluates `es[i..]` from left to right.
pub open spec fn eval_list(env: Env, es: Seq<Expr>, i: nat, fuel: nat, o: Oracle, pos: nat) -> Out<
    Seq<Val>,
>
    decreases fuel, es.len() - i,
{
    if fuel == 0 {
        fail(env, Fault::OutOfFuel)
    } else if i >= es.len() {
        done(env, Seq::empty())
    } else {
        let a = eval(env, es[i as int], (fuel - 1) as nat, o, pos);
        match a.res {
            Err(x) => Out { res: Err(x), env: a.env, calls: a.calls },
            Ok(v) => {
                let b = eval_list(a.env, es, i + 1, fuel, o, pos + a.calls.len());
                match b.res {
                    Err(x) => Out { res: Err(x), env: b.env, calls: a.calls + b.calls },
                    Ok(vs) => Out { res: Ok(seq![v] + vs), env: b.env, calls: a.calls + b.calls },
                }
            },
        }
    }
}

/// Evaluates the entries `ps[i..]` of a dictionary literal into `acc`: the key, then
/// the value; the key must be a string.
pub open spec fn eval_pairs(
    env: Env,
    ps: Seq<(Expr, Expr)>,
    i: nat,
    acc: Scope,
    fuel: nat,
    o: Oracle,
    pos: nat,
) -> Out<Scope>
    decreases fuel, ps.len() - i,
{
    if fuel == 0 {
        fail(env, Fault::OutOfFuel)
    } else if i >= ps.len() {
        done(env, acc)
    } else {
        let a = eval(env, ps[i as int].0, (fuel - 1) as nat, o, pos);
        match a.res {
            Err(x) => Out { res: Err(x), env: a.env, calls: a.calls },
            Ok(k) => {
                let b = eval(a.env, ps[i as int].1, (fuel - 1) as nat, o, pos + a.calls.len());
                match b.res {
                    Err(x) => Out { res: Err(x), env: b.env, calls: a.calls + b.calls },
                    Ok(v) => match k {
                        Val::Str(key) => {
                            let c = eval_pairs(
                                b.env,
                                ps,
                                i + 1,
                                insert_entry(acc, key, v),
                                fuel,
                                o,
                                pos + a.calls.len() + b.calls.len(),
                            );
                            Out { res: c.res, env: c.env, calls: a.calls + b.calls + c.calls }
                        },
                        _ => Out {
                            res: Err(Fault::KeyNotString),
                            env: b.env,
                            calls: a.calls + b.calls,
                        },
                    },
                }
            },
        }
    }
}

/// Evaluates the parts `es[i..]` of an interpolated string and appends their text to `acc`.
pub open spec fn eval_parts(
    env: Env,
    es: Seq<Expr>,
    i: nat,
    acc: Seq<char>,
    fuel: nat,
    o: Oracle,
    pos: nat,
) -> Out<Seq<char>>
    decreases fuel, es.len() - i,
{
    if fuel == 0 {
        fail(env, Fault::OutOfFuel)
    } else if i >= es.len() {
        done(env, acc)
    } else {
        let a = eval(env, es[i as int], (fuel - 1) as nat, o, pos);
        match a.res {
            Err(x) => Out { res: Err(x), env: a.env, calls: a.calls },
            Ok(v) => {
                let b = eval_parts(a.env, es, i + 1, acc + display(v), fuel, o, pos + a.calls.len());
                Out { res: b.res, env: b.env, calls: a.calls + b.calls }
            },
        }
    }
}

/// Calls a value with evaluated arguments. A function runs in a scope of its own
/// over the globals; the caller's other scopes are set aside meanwhile.
pub open spec fn call_value(env: Env, callee: Val, args: Seq<Val>, fuel: nat, o: Oracle, pos: nat) -> Out<
    Val,
>
    decreases fuel, 0nat,
{
    if fuel == 0 {
        fail(env, Fault::OutOfFuel)
    } else {
        match callee {
            Val::Func(params, body) => if params.len() != args.len() {
                fail(env, Fault::Arity(params.len(), args.len()))
            } else {
                call_body(env, bind_params(params, args), body, (fuel - 1) as nat, o, pos)
            },
            Val::Builtin(bi) => {
                let c = call_builtin(bi, args, o, pos);
                Out { res: Ok(c.0), env, calls: c.1 }
            },
            _ => fail(env, Fault::NotCallable),
        }
    }
}

/// Runs a function body over the globals, in a scope that holds `bound`; the
/// caller's other scopes are put back afterwards. A `return` gives the call's
/// value; a body that ends without one gives null.
pub open spec fn call_body(env: Env, bound: Scope, body: Seq<Stmt>, fuel: nat, o: Oracle, pos: nat) -> Out<
    Val,
>
    decreases fuel, 1nat,
{
    let b = exec_block(seq![env[0], bound], body, fuel, o, pos);
    Out {
        res: match b.res {
            Err(x) => Err(x),
            Ok(Flow::Return(v)) => Ok(v),
            Ok(Flow::Normal) => Ok(Val::Null),
        },
        env: seq![b.env[0]] + env.subrange(1, env.len() as int),
        calls: b.calls,
    }
}

/// Runs a statement.
pub open spec fn exec_stmt(env: Env, s: Stmt, fuel: nat, o: Oracle, pos: nat) -> Out<Flow>
    decreases fuel, 0nat,
{
    if fuel == 0 {
        fail(env, Fault::OutOfFuel)
    } else {
        let f = (fuel - 1) as nat;
        match s {
            Stmt::Import { .. } => done(env, Flow::Normal),
            Stmt::Let { name, init, .. } => {
                let a = eval(env, init, f, o, pos);
                match a.res {
                    Err(x) => Out { res: Err(x), env: a.env, calls: a.calls },
                    Ok(v) => Out {
                        res: Ok(Flow::Normal),
                        env: env_define(a.env, name@, v),
                        calls: a.calls,
                    },
                }
            },
            Stmt::Assign { name, value } => {
                let a = eval(env, value, f, o, pos);
                match a.res {
                    Err(x) => Out { res: Err(x), env: a.env, calls: a.calls },
                    Ok(v) => match env_assign(a.env, name@, v) {
                        Some(e2) => Out { res: Ok(Flow::Normal), env: e2, calls: a.calls },
                        None => Out {
                            res: Err(Fault::Undefined(name@)),
                            env: a.env,
                            calls: a.calls,
                        },
                    },
                }
            },
            Stmt::If { condition, then_branch, else_branch } => {
                let a = eval(env, condition, f, o, pos);
                match a.res {
                    Err(x) => Out { res: Err(x), env: a.env, calls: a.calls },
                    Ok(c) => if truthy(c) {
                        let b = exec_block(a.env, then_branch@, f, o, pos + a.calls.len());
                        Out { res: b.res, env: b.env, calls: a.calls + b.calls }
                    } else {
                        match else_branch {
                            Some(eb) => {
                                let b = exec_block(a.env, eb@, f, o, pos + a.calls.len());
                                Out { res: b.res, env: b.env, calls: a.calls + b.calls }
                            },
                            None => Out { res: Ok(Flow::Normal), env: a.env, calls: a.calls },
                        }
                    },
                }
            },
            Stmt::While { condition, body } => exec_while(env, condition, body@, f, o, pos),
            Stmt::For { var, iterable, body } => {
                let a = eval(env, iterable, f, o, pos);
                match a.res {
                    Err(x) => Out { res: Err(x), env: a.env, calls: a.calls },
                    Ok(Val::List(items)) => {
                        let b = exec_for(a.env, var@, items, 0, body@, f, o, pos + a.calls.len());
                        Out { res: b.res, env: b.env, calls: a.calls + b.calls }
                    },
                    Ok(_) => Out { res: Err(Fault::NotIterable), env: a.env, calls: a.calls },
                }
            },
            Stmt::Return(value) => match value {
                Some(x) => {
                    let a = eval(env, x, f, o, pos);
                    match a.res {
                        Err(y) => Out { res: Err(y), env: a.env, calls: a.calls },
                        Ok(v) => Out { res: Ok(Flow::Return(v)), env: a.env, calls: a.calls },
                    }
                },
                None => done(env, Flow::Return(Val::Null)),
            },
            Stmt::FnDecl { name, params, body, .. } => done(
                env_define(env, name@, Val::Func(param_names(params@), (*body)@)),
                Flow::Normal,
            ),
            Stmt::Expr(x) => {
                let a = eval(env, x, f, o, pos);
                match a.res {
                    Err(y) => Out { res: Err(y), env: a.env, calls: a.calls },
                    Ok(_) => Out { res: Ok(Flow::Normal), env: a.env, calls: a.calls },
                }
            },
        }
    }
}

/// Runs `ss[i..]` until one returns or fails.
pub open spec fn exec_stmts(env: Env, ss: Seq<Stmt>, i: nat, fuel: nat, o: Oracle, pos: nat) -> Out<
    Flow,
>
    decreases fuel, ss.len() - i,
{
    if fuel == 0 {
        fail(env, Fault::OutOfFuel)
    } else if i >= ss.len() {
        done(env, Flow::Normal)
    } else {
        let a = exec_stmt(env, ss[i as int], (fuel - 1) as nat, o, pos);
        match a.res {
            Err(x) => Out { res: Err(x), env: a.env, calls: a.calls },
            Ok(Flow::Return(v)) => Out { res: Ok(Flow::Return(v)), env: a.env, calls: a.calls },
            Ok(Flow::Normal) => {
                let b = exec_stmts(a.env, ss, i + 1, fuel, o, pos + a.calls.len());
                Out { res: b.res, env: b.env, calls: a.calls + b.calls }
            },
        }
    }
}

/// Runs a block in a new innermost scope, which is closed afterwards.
pub open spec fn exec_block(env: Env, ss: Seq<Stmt>, fuel: nat, o: Oracle, pos: nat) -> Out<Flow>
    decreases fuel, 0nat,
{
    if fuel == 0 {
        fail(env, Fault::OutOfFuel)
    } else {
        let a = exec_stmts(env.push(Seq::empty()), ss, 0, (fuel - 1) as nat, o, pos);
        Out { res: a.res, env: a.env.drop_last(), calls: a.calls }
    }
}

/// Runs a `while` loop.
pub open spec fn exec_while(env: Env, cond: Expr, body: Seq<Stmt>, fuel: nat, o: Oracle, pos: nat) -> Out<
    Flow,
>
    decreases fuel, 0nat,
{
    if fuel == 0 {
        fail(env, Fault::OutOfFuel)
    } else {
        let f = (fuel - 1) as nat;
        let a = eval(env, cond, f, o, pos);
        match a.res {
            Err(x) => Out { res: Err(x), env: a.env, calls: a.calls },
            Ok(c) => if !truthy(c) {
                Out { res: Ok(Flow::Normal), env: a.env, calls: a.calls }
            } else {
                let b = exec_block(a.env, body, f, o, pos + a.calls.len());
                match b.res {
                    Err(x) => Out { res: Err(x), env: b.env, calls: a.calls + b.calls },
                    Ok(Flow::Return(v)) => Out {
                        res: Ok(Flow::Return(v)),
                        env: b.env,
                        calls: a.calls + b.calls,
                    },
                    Ok(Flow::Normal) => {
                        let w = exec_while(b.env, cond, body, f, o, pos + a.calls.len() + b.calls.len());
                        Out { res: w.res, env: w.env, calls: a.calls + b.calls + w.calls }
                    },
                }
            },
        }
    }
}

/// Runs the body of a `for` loop for `items[i..]`, each in a scope that binds `var`.
pub open spec fn exec_for(
    env: Env,
    var: Seq<char>,
    items: Seq<Val>,
    i: nat,
    body: Seq<Stmt>,
    fuel: nat,
    o: Oracle,
    pos: nat,
) -> Out<Flow>
    decreases fuel, items.len() - i,
{
    if fuel == 0 {
        fail(env, Fault::OutOfFuel)
    } else if i >= items.len() {
        done(env, Flow::Normal)
    } else {
        let b = exec_block(
            env.push(seq![(var, items[i as int])]),
            body,
            (fuel - 1) as nat,
            o,
            pos,
        );
        let back = b.env.drop_last();
        match b.res {
            Err(x) => Out { res: Err(x), env: back, calls: b.calls },
            Ok(Flow::Return(v)) => Out { res: Ok(Flow::Return(v)), env: back, calls: b.calls },
            Ok(Flow::Normal) => {
                let c = exec_for(back, var, items, i + 1, body, fuel, o, pos + b.calls.len());
                Out { res: c.res, env: c.env, calls: b.calls + c.calls }
            },
        }
    }
}

/// Runs a program at the top level: its value is that of the first `return`, or null.
pub open spec fn run_program(env: Env, ss: Seq<Stmt>, fuel: nat, o: Oracle, pos: nat) -> Out<Val> {
    let a = exec_stmts(env, ss, 0, fuel, o, pos);
    Out {
        res: match a.res {
            Err(x) => Err(x),
            Ok(Flow::Return(v)) => Ok(v),
            Ok(Flow::Normal) => Ok(Val::Null),
        },
        env: a.env,
        calls: a.calls,
    }
}

} // verus!
