//! The tree-walking interpreter of NovaWeb, proved against `semantics`.

use crate::ast::{BinaryOp, Expr, Literal, Stmt, UnaryOp};
use crate::environment::{Env, Environment, Scope};
use crate::model::{view_entries, view_value, view_values, Val};
use crate::semantics::{
    apply_binary, apply_unary, arith_outcome, bind_params, call_body, call_builtin, call_value, eval,
    eval_list, eval_pairs, eval_parts, exec_block, exec_for, exec_stmt, exec_stmts, exec_while,
    float_op_of, get_field, index_value, order_holds, param_names, run_program, sql_param,
    sql_params, sql_params_of, utf8_len, Fault, FloatOp, Flow, Oracle, Out, Request,
};
use crate::text::{concat, copy_str, from_str, Order};
use crate::value::{
    add_overflows, dict_get, display, nat_text, nat_to_text, dict_insert, div_overflows, insert_entry, mul_overflows,
    negate_overflows, spec_add, spec_compare, spec_div, spec_mul, spec_negate, spec_sub,
    sub_overflows, truthy, ArithError, Builtin, Value,
};
use vstd::prelude::*;

verus! {

broadcast use crate::model::group_value_views;

/// A request to the host: outside work that the interpreter does not do itself.
pub enum HostCall {
    /// Print the values on one line (see `print_line`).
    Print(Vec<Value>),
    /// The text of a file, or null.
    ReadFile(String),
    /// Open the database at a URL.
    DbConnect(String),
    /// Run a query with parameters; its rows.
    DbQuery { sql: String, params: Vec<Value> },
    /// Run a statement with parameters; the number of rows it changed.
    DbExecute { sql: String, params: Vec<Value> },
    /// A floating-point operation on two numbers (the second is null for `Neg`).
    Float { op: FloatOp, lhs: Value, rhs: Value },
    /// The number that a float literal denotes.
    ParseFloat(String),
}

impl View for HostCall {
    type V = Request;

    open spec fn view(&self) -> Request {
        match self {
            HostCall::Print(args) => Request::Print(view_values(args@)),
            HostCall::ReadFile(p) => Request::ReadFile(p@),
            HostCall::DbConnect(u) => Request::DbConnect(u@),
            HostCall::DbQuery { sql, params } => Request::DbQuery(sql@, view_values(params@)),
            HostCall::DbExecute { sql, params } => Request::DbExecute(sql@, view_values(params@)),
            HostCall::Float { op, lhs, rhs } => Request::Float(*op, lhs@, rhs@),
            HostCall::ParseFloat(t) => Request::ParseFloat(t@),
        }
    }
}

/// Each value's text followed by a space.
pub open spec fn print_items(vs: Seq<Val>) -> Seq<char>
    decreases vs.len(),
{
    if vs.len() == 0 {
        Seq::empty()
    } else {
        print_items(vs.drop_last()) + display(vs.last()) + " "@
    }
}

/// The line that `print` writes: each value's text followed by a space, then a newline.
pub open spec fn print_text(vs: Seq<Val>) -> Seq<char> {
    print_items(vs) + "\n"@
}

/// The line that `print` writes for its arguments (see `print_text`).
pub fn print_line(args: &Vec<Value>) -> (r: String)
    ensures
        r@ == print_text(view_values(args@)),
{
    let ghost vs = view_values(args@);
    let mut acc = String::new();
    let mut i: usize = 0;
    assert(vs.subrange(0, 0) =~= Seq::<Val>::empty());
    while i < args.len()
        invariant
            i <= args.len(),
            vs == view_values(args@),
            vs.len() == args.len(),
            acc@ == print_items(vs.subrange(0, i as int)),
        decreases args.len() - i,
    {
        assert(vs.subrange(0, i + 1).drop_last() =~= vs.subrange(0, i as int));
        assert(vs[i as int] == args@[i as int]@);
        let t = args[i].to_text();
        let a = concat(acc.as_str(), t.as_str());
        acc = concat(a.as_str(), " ");
        i = i + 1;
    }
    assert(vs.subrange(0, args.len() as int) =~= vs);
    concat(acc.as_str(), "\n")
}

/// A runtime error.
pub enum EvalError {
    Undefined(String),
    InvalidOperands(BinaryOp),
    DivisionByZero,
    InvalidNegation,
    NotAMap,
    InvalidIndex,
    Arity { expected: usize, got: usize },
    NotCallable,
    KeyNotString,
    NotIterable,
    Overflow,
    OutOfFuel,
}

pub open spec fn view_err(e: EvalError) -> Fault {
    match e {
        EvalError::Undefined(n) => Fault::Undefined(n@),
        EvalError::InvalidOperands(op) => Fault::InvalidOperands(op),
        EvalError::DivisionByZero => Fault::DivisionByZero,
        EvalError::InvalidNegation => Fault::InvalidNegation,
        EvalError::NotAMap => Fault::NotAMap,
        EvalError::InvalidIndex => Fault::InvalidIndex,
        EvalError::Arity { expected, got } => Fault::Arity(expected as nat, got as nat),
        EvalError::NotCallable => Fault::NotCallable,
        EvalError::KeyNotString => Fault::KeyNotString,
        EvalError::NotIterable => Fault::NotIterable,
        EvalError::Overflow => Fault::Overflow,
        EvalError::OutOfFuel => Fault::OutOfFuel,
    }
}

/// The message of an operator applied to operands it does not take.
pub open spec fn operands_message(op: BinaryOp) -> Seq<char> {
    match op {
        BinaryOp::Add => "Invalid types for addition"@,
        BinaryOp::Sub => "Invalid types for subtraction"@,
        BinaryOp::Mul => "Invalid types for multiplication"@,
        BinaryOp::Div => "Invalid types for division"@,
        _ => "Invalid types for the operator"@,
    }
}

/// The text by which a runtime error is reported.
pub open spec fn error_message(e: EvalError) -> Seq<char> {
    match e {
        EvalError::Undefined(n) => "Undefined variable '"@ + n@ + "'"@,
        EvalError::InvalidOperands(op) => operands_message(op),
        EvalError::DivisionByZero => "Division by zero"@,
        EvalError::InvalidNegation => "Invalid type for negation"@,
        EvalError::NotAMap => "Can only access properties on maps"@,
        EvalError::InvalidIndex => "Invalid index operation"@,
        EvalError::Arity { expected, got } => "Expected "@ + nat_text(expected as nat) + " arguments, got "@
            + nat_text(got as nat),
        EvalError::NotCallable => "Value is not callable"@,
        EvalError::KeyNotString => "Map keys must be strings"@,
        EvalError::NotIterable => "Can only iterate over lists"@,
        EvalError::Overflow => "Integer overflow"@,
        EvalError::OutOfFuel => "Evaluation ran out of steps"@,
    }
}

impl EvalError {
    /// The text by which the error is reported (see `error_message`).
    pub fn message(&self) -> (r: String)
        ensures
            r@ == error_message(*self),
    {
        match self {
            EvalError::Undefined(n) => {
                let a = concat("Undefined variable '", n.as_str());
                concat(a.as_str(), "'")
            },
            EvalError::InvalidOperands(op) => match op {
                BinaryOp::Add => from_str("Invalid types for addition"),
                BinaryOp::Sub => from_str("Invalid types for subtraction"),
                BinaryOp::Mul => from_str("Invalid types for multiplication"),
                BinaryOp::Div => from_str("Invalid types for division"),
                _ => from_str("Invalid types for the operator"),
            },
            EvalError::DivisionByZero => from_str("Division by zero"),
            EvalError::InvalidNegation => from_str("Invalid type for negation"),
            EvalError::NotAMap => from_str("Can only access properties on maps"),
            EvalError::InvalidIndex => from_str("Invalid index operation"),
            EvalError::Arity { expected, got } => {
                let e = nat_to_text(*expected as u64);
                let g = nat_to_text(*got as u64);
                let a = concat("Expected ", e.as_str());
                let b = concat(a.as_str(), " arguments, got ");
                concat(b.as_str(), g.as_str())
            },
            EvalError::NotCallable => from_str("Value is not callable"),
            EvalError::KeyNotString => from_str("Map keys must be strings"),
            EvalError::NotIterable => from_str("Can only iterate over lists"),
            EvalError::Overflow => from_str("Integer overflow"),
            EvalError::OutOfFuel => from_str("Evaluation ran out of steps"),
        }
    }
}

/// How a statement ended.
pub enum ControlFlow {
    Normal,
    Return(Value),
}

pub open spec fn res_val(r: Result<Value, EvalError>) -> Result<Val, Fault> {
    match r {
        Ok(v) => Ok(v@),
        Err(e) => Err(view_err(e)),
    }
}

pub open spec fn res_vals(r: Result<Vec<Value>, EvalError>) -> Result<Seq<Val>, Fault> {
    match r {
        Ok(v) => Ok(view_values(v@)),
        Err(e) => Err(view_err(e)),
    }
}

pub open spec fn res_scope(r: Result<Vec<(String, Value)>, EvalError>) -> Result<
    Seq<(Seq<char>, Val)>,
    Fault,
> {
    match r {
        Ok(v) => Ok(view_entries(v@)),
        Err(e) => Err(view_err(e)),
    }
}

pub open spec fn res_text(r: Result<String, EvalError>) -> Result<Seq<char>, Fault> {
    match r {
        Ok(v) => Ok(v@),
        Err(e) => Err(view_err(e)),
    }
}

pub open spec fn res_flow(r: Result<ControlFlow, EvalError>) -> Result<Flow, Fault> {
    match r {
        Ok(ControlFlow::Normal) => Ok(Flow::Normal),
        Ok(ControlFlow::Return(v)) => Ok(Flow::Return(v@)),
        Err(e) => Err(view_err(e)),
    }
}

/// The interpreter: its scopes, and (as ghost state) the requests it made of
/// the host and the replies it received, in order, both as models and as the
/// values handed to and received from the host.
pub struct Interpreter {
    pub environment: Environment,
    pub calls: Ghost<Seq<Request>>,
    pub replies: Ghost<Seq<Val>>,
    pub sent: Ghost<Seq<HostCall>>,
    pub got: Ghost<Seq<Value>>,
}

/// `a` is a prefix of `b`.
pub open spec fn prefix<T>(a: Seq<T>, b: Seq<T>) -> bool {
    a.len() <= b.len() && forall|i: int| 0 <= i < a.len() ==> #[trigger] b[i] == a[i]
}

/// The oracle gives, from position `from` to `to`, the replies of the log.
pub open spec fn agrees(o: Oracle, log: Seq<Val>, from: nat, to: nat) -> bool {
    forall|i: nat| from <= i < to ==> #[trigger] o(i) == log[i as int]
}

impl Interpreter {
    /// A request has been answered for each request made, and the globals exist.
    pub open spec fn wf(&self) -> bool {
        &&& self.replies@.len() == self.calls@.len()
        &&& self.sent@.len() == self.calls@.len()
        &&& self.got@.len() == self.calls@.len()
        &&& self.environment.scopes.len() >= 1
    }

    /// The number of requests made so far.
    pub open spec fn pos(&self) -> nat {
        self.calls@.len()
    }
}

/// `b` continues the log of `a`.
pub open spec fn extends(a: Interpreter, b: Interpreter) -> bool {
    &&& prefix(a.calls@, b.calls@)
    &&& prefix(a.replies@, b.replies@)
    &&& prefix(a.sent@, b.sent@)
    &&& prefix(a.got@, b.got@)
    &&& b.replies@.len() == b.calls@.len()
    &&& b.sent@.len() == b.calls@.len()
    &&& b.got@.len() == b.calls@.len()
}

/// From `a` to `b`, each request was handed to `host` as the call whose model
/// is logged, and what `host` gave back for it is the reply logged.
pub open spec fn hosted<H: Fn(HostCall) -> Value>(host: &H, a: Interpreter, b: Interpreter) -> bool {
    forall|i: int|
        a.pos() <= i < b.pos() ==> {
            &&& (#[trigger] b.sent@[i])@ == b.calls@[i]
            &&& b.got@[i]@ == b.replies@[i]
            &&& call_ensures(*host, (b.sent@[i],), b.got@[i])
        }
}

/// The requests made from `a` to `b`.
pub open spec fn made(a: Interpreter, b: Interpreter) -> Seq<Request> {
    b.calls@.subrange(a.pos() as int, b.pos() as int)
}

/// The oracle gives the replies received from `a` to `b`.
pub open spec fn answered(o: Oracle, a: Interpreter, b: Interpreter) -> bool {
    agrees(o, b.replies@, a.pos(), b.pos())
}

/// Everything a host must accept: any request.
pub open spec fn host_ready<H: Fn(HostCall) -> Value>(host: &H) -> bool {
    forall|c: HostCall| host.requires((c,))
}

pub proof fn lemma_chain(o: Oracle, a: Interpreter, b: Interpreter, c: Interpreter)
    requires
        a.replies@.len() == a.calls@.len(),
        extends(a, b),
        extends(b, c),
        answered(o, a, c),
    ensures
        answered(o, a, b),
        answered(o, b, c),
        made(a, c) == made(a, b) + made(b, c),
        extends(a, c),
        a.pos() + made(a, b).len() == b.pos(),
{
    assert forall|i: nat| a.pos() <= i < b.pos() implies #[trigger] o(i) == b.replies@[i as int] by {
        assert(c.replies@[i as int] == b.replies@[i as int]);
    }
    assert(made(a, c) =~= made(a, b) + made(b, c)) by {
        assert forall|i: int| 0 <= i < made(a, b).len() implies made(a, c)[i] == made(a, b)[i] by {
            assert(c.calls@[a.pos() + i] == b.calls@[a.pos() + i]);
        }
    }
    assert forall|i: int| 0 <= i < a.calls@.len() implies #[trigger] c.calls@[i] == a.calls@[i] by {
        assert(b.calls@[i] == a.calls@[i]);
    }
    assert forall|i: int| 0 <= i < a.replies@.len() implies #[trigger] c.replies@[i] == a.replies@[i] by {
        assert(b.replies@[i] == a.replies@[i]);
    }
    assert forall|i: int| 0 <= i < a.sent@.len() implies #[trigger] c.sent@[i] == a.sent@[i] by {
        assert(b.sent@[i] == a.sent@[i]);
    }
    assert forall|i: int| 0 <= i < a.got@.len() implies #[trigger] c.got@[i] == a.got@[i] by {
        assert(b.got@[i] == a.got@[i]);
    }
}

/// Hand-overs to the host compose along a run.
pub proof fn lemma_hosted_chain<H: Fn(HostCall) -> Value>(host: &H, a: Interpreter, b: Interpreter, c: Interpreter)
    requires
        a.pos() <= b.pos(),
        b.replies@.len() == b.pos(),
        b.sent@.len() == b.pos(),
        b.got@.len() == b.pos(),
        extends(b, c),
        hosted(host, a, b),
        hosted(host, b, c),
    ensures
        hosted(host, a, c),
{
    assert forall|i: int| a.pos() <= i < c.pos() implies {
        &&& (#[trigger] c.sent@[i])@ == c.calls@[i]
        &&& c.got@[i]@ == c.replies@[i]
        &&& call_ensures(*host, (c.sent@[i],), c.got@[i])
    } by {
        if i < b.pos() {
            assert(c.sent@[i] == b.sent@[i]);
            assert(c.got@[i] == b.got@[i]);
            assert(c.calls@[i] == b.calls@[i]);
            assert(c.replies@[i] == b.replies@[i]);
            assert((b.sent@[i])@ == b.calls@[i]);
            assert(b.got@[i]@ == b.replies@[i]);
            assert(call_ensures(*host, (b.sent@[i],), b.got@[i]));
        } else {
            assert((c.sent@[i])@ == c.calls@[i]);
        }
    }
}

pub proof fn lemma_extends_refl(a: Interpreter)
    requires
        a.replies@.len() == a.calls@.len(),
        a.sent@.len() == a.calls@.len(),
        a.got@.len() == a.calls@.len(),
    ensures
        extends(a, a),
        made(a, a) == Seq::<Request>::empty(),
{
    assert(made(a, a) =~= Seq::<Request>::empty());
}

fn add_overflows_exec(l: &Value, r: &Value) -> (b: bool)
    ensures
        b == add_overflows(l@, r@),
{
    match (l, r) {
        (Value::Int(a), Value::Int(b)) => a.checked_add(*b).is_none(),
        _ => false,
    }
}

fn sub_overflows_exec(l: &Value, r: &Value) -> (b: bool)
    ensures
        b == sub_overflows(l@, r@),
{
    match (l, r) {
        (Value::Int(a), Value::Int(b)) => a.checked_sub(*b).is_none(),
        _ => false,
    }
}

fn mul_overflows_exec(l: &Value, r: &Value) -> (b: bool)
    ensures
        b == mul_overflows(l@, r@),
{
    match (l, r) {
        (Value::Int(a), Value::Int(b)) => a.checked_mul(*b).is_none(),
        _ => false,
    }
}

fn div_overflows_exec(l: &Value, r: &Value) -> (b: bool)
    ensures
        b == div_overflows(l@, r@),
{
    match (l, r) {
        (Value::Int(a), Value::Int(b)) => *a == i64::MIN && *b == -1,
        _ => false,
    }
}

fn float_op_exec(op: BinaryOp) -> (f: FloatOp)
    ensures
        f == float_op_of(op),
{
    match op {
        BinaryOp::Add => FloatOp::Add,
        BinaryOp::Sub => FloatOp::Sub,
        BinaryOp::Mul => FloatOp::Mul,
        BinaryOp::Div => FloatOp::Div,
        BinaryOp::Lt => FloatOp::Lt,
        BinaryOp::Gt => FloatOp::Gt,
        BinaryOp::Le => FloatOp::Le,
        _ => FloatOp::Ge,
    }
}

fn order_holds_exec(op: BinaryOp, ord: Order) -> (b: bool)
    ensures
        b == order_holds(op, ord),
{
    match op {
        BinaryOp::Lt => ord == Order::Less,
        BinaryOp::Gt => ord == Order::Greater,
        BinaryOp::Le => ord != Order::Greater,
        _ => ord != Order::Less,
    }
}

/// How a value is passed to the database.
pub fn to_sql_param(v: &Value) -> (r: Value)
    ensures
        r@ == sql_param(v@),
{
    match v {
        Value::Int(_) => v.copy(),
        Value::Float(_) => v.copy(),
        Value::String(_) => v.copy(),
        Value::Bool(_) => v.copy(),
        _ => Value::Null,
    }
}

/// The parameters of a database call (see `sql_params`).
pub fn sql_params_exec(args: &Vec<Value>) -> (r: Vec<Value>)
    ensures
        view_values(r@) == sql_params(view_values(args@)),
{
    let mut r: Vec<Value> = Vec::new();
    if args.len() > 1 {
        match &args[1] {
            Value::List(l) => {
                let mut i: usize = 0;
                while i < l.len()
                    invariant
                        i <= l.len(),
                        r@.len() == i,
                        forall|j: int| 0 <= j < i ==> view_value(#[trigger] r@[j]) == sql_param(view_value(l@[j])),
                    decreases l.len() - i,
                {
                    r.push(to_sql_param(&l[i]));
                    i = i + 1;
                }
                proof {
                    crate::model::lemma_view_values_ext(r@, sql_params_of(view_values(l@)));
                }
            },
            other => {
                r.push(to_sql_param(other));
                proof {
                    crate::model::lemma_view_values_ext(r@, seq![sql_param(other@)]);
                }
            },
        }
    } else {
        assert(view_values(r@) =~= Seq::<Val>::empty());
    }
    r
}

impl Interpreter {
    /// Asks the host to do `call`, and logs the request and the reply.
    fn ask<H: Fn(HostCall) -> Value>(&mut self, host: &H, call: HostCall) -> (r: Value)
        requires
            host_ready(host),
            old(self).wf(),
        ensures
            final(self).wf(),
            final(self).calls@ == old(self).calls@.push(call@),
            final(self).replies@ == old(self).replies@.push(r@),
            final(self).environment == old(self).environment,
            extends(*old(self), *final(self)),
            made(*old(self), *final(self)) == seq![call@],
            forall|o: Oracle| answered(o, *old(self), *final(self)) ==> o(old(self).pos()) == r@,
            hosted(host, *old(self), *final(self)),
    {
        let ghost req = call@;
        let ghost c = call;
        let r = host(call);
        self.calls = Ghost(self.calls@.push(req));
        self.replies = Ghost(self.replies@.push(r@));
        self.sent = Ghost(self.sent@.push(c));
        self.got = Ghost(self.got@.push(r));
        assert(made(*old(self), *self) =~= seq![req]);
        r
    }

    /// A binary operator applied to evaluated operands (see `apply_binary`).
    fn binary_op<H: Fn(HostCall) -> Value>(&mut self, op: BinaryOp, l: Value, r: Value, host: &H) -> (res: Result<Value, EvalError>)
        requires
            host_ready(host),
            old(self).wf(),
        ensures
            final(self).wf(),
            final(self).environment == old(self).environment,
            extends(*old(self), *final(self)),
            hosted(host, *old(self), *final(self)),
            forall|o: Oracle| answered(o, *old(self), *final(self)) ==> #[trigger] apply_binary(op, l@, r@, o, old(self).pos()) == (res_val(res), made(*old(self), *final(self))),
    {
        proof {
            lemma_extends_refl(*self);
        }
        let ghost lv = l@;
        let ghost rv = r@;
        match op {
            BinaryOp::Add | BinaryOp::Sub | BinaryOp::Mul | BinaryOp::Div => {
                let over = match op {
                    BinaryOp::Add => add_overflows_exec(&l, &r),
                    BinaryOp::Sub => sub_overflows_exec(&l, &r),
                    BinaryOp::Mul => mul_overflows_exec(&l, &r),
                    _ => div_overflows_exec(&l, &r),
                };
                if over {
                    return Err(EvalError::Overflow);
                }
                let rc = r.copy();
                let out = match op {
                    BinaryOp::Add => l.add(rc),
                    BinaryOp::Sub => l.sub(rc),
                    BinaryOp::Mul => l.mul(rc),
                    _ => l.div(rc),
                };
                let ghost spec_res = match op {
                    BinaryOp::Add => spec_add(lv, rv),
                    BinaryOp::Sub => spec_sub(lv, rv),
                    BinaryOp::Mul => spec_mul(lv, rv),
                    _ => spec_div(lv, rv),
                };
                assert(crate::value::view_result(out) == spec_res);
                match out {
                    Ok(v) => Ok(v),
                    Err(ArithError::NeedsFloat) => {
                        let fop = float_op_exec(op);
                        let v = self.ask(host, HostCall::Float { op: fop, lhs: l, rhs: r });
                        Ok(v)
                    },
                    Err(ArithError::DivisionByZero) => Err(EvalError::DivisionByZero),
                    Err(ArithError::InvalidTypes) => Err(EvalError::InvalidOperands(op)),
                }
            },
            BinaryOp::Eq => Ok(Value::Bool(l.equals(&r))),
            BinaryOp::Ne => Ok(Value::Bool(!l.equals(&r))),
            BinaryOp::And => Ok(Value::Bool(l.is_truthy() && r.is_truthy())),
            BinaryOp::Or => Ok(Value::Bool(l.is_truthy() || r.is_truthy())),
            _ => {
                match l.partial_cmp(&r) {
                    Err(_) => {
                        let fop = float_op_exec(op);
                        let v = self.ask(host, HostCall::Float { op: fop, lhs: l, rhs: r });
                        Ok(v)
                    },
                    Ok(None) => Ok(Value::Bool(false)),
                    Ok(Some(ord)) => Ok(Value::Bool(order_holds_exec(op, ord))),
                }
            },
        }
    }

    /// A prefix operator applied to an evaluated operand (see `apply_unary`).
    fn unary_op<H: Fn(HostCall) -> Value>(&mut self, op: UnaryOp, v: Value, host: &H) -> (res: Result<Value, EvalError>)
        requires
            host_ready(host),
            old(self).wf(),
        ensures
            final(self).wf(),
            final(self).environment == old(self).environment,
            extends(*old(self), *final(self)),
            hosted(host, *old(self), *final(self)),
            forall|o: Oracle| answered(o, *old(self), *final(self)) ==> #[trigger] apply_unary(op, v@, o, old(self).pos()) == (res_val(res), made(*old(self), *final(self))),
    {
        proof {
            lemma_extends_refl(*self);
        }
        match op {
            UnaryOp::Neg => {
                let over = match &v {
                    Value::Int(i) => *i == i64::MIN,
                    _ => false,
                };
                if over {
                    return Err(EvalError::Overflow);
                }
                match v.negate() {
                    Ok(x) => Ok(x),
                    Err(ArithError::NeedsFloat) => {
                        let x = self.ask(host, HostCall::Float { op: FloatOp::Neg, lhs: v, rhs: Value::Null });
                        Ok(x)
                    },
                    Err(_) => Err(EvalError::InvalidNegation),
                }
            },
            UnaryOp::Not => Ok(Value::Bool(!v.is_truthy())),
        }
    }
}


/// `b` follows `a`: the log grows and the scopes are as many as before.
pub open spec fn step_ok(a: Interpreter, b: Interpreter) -> bool {
    &&& b.wf()
    &&& extends(a, b)
    &&& b.environment.scopes.len() == a.environment.scopes.len()
}

/// A step's outcome after `c` was requested before it.
pub open spec fn prepend<T>(c: Seq<Request>, out: Out<T>) -> Out<T> {
    Out { res: out.res, env: out.env, calls: c + out.calls }
}

pub proof fn lemma_prepend_assoc<T>(a: Seq<Request>, b: Seq<Request>, out: Out<T>)
    ensures
        prepend(a, prepend(b, out)) == prepend(a + b, out),
{
    assert(a + (b + out.calls) =~= (a + b) + out.calls);
}

pub proof fn lemma_view_one(k: String, v: Value)
    ensures
        view_entries(seq![(k, v)]) == seq![(k@, v@)],
{
    crate::model::lemma_view_entries_ext(seq![(k, v)], seq![(k@, v@)]);
}

impl Interpreter {
    /// A builtin applied to its arguments (see `call_builtin`).
    fn builtin<H: Fn(HostCall) -> Value>(&mut self, b: Builtin, args: Vec<Value>, host: &H) -> (r: Value)
        requires
            host_ready(host),
            old(self).wf(),
        ensures
            final(self).wf(),
            final(self).environment == old(self).environment,
            extends(*old(self), *final(self)),
            hosted(host, *old(self), *final(self)),
            forall|o: Oracle| answered(o, *old(self), *final(self)) ==> #[trigger] call_builtin(b, view_values(args@), o, old(self).pos()) == (r@, made(*old(self), *final(self))),
    {
        proof {
            lemma_extends_refl(*self);
        }
        let ghost av = view_values(args@);
        proof {
            if args.len() > 0 {
                assert(av[0] == view_value(args@[0]));
            }
            if args.len() > 1 {
                assert(av[1] == view_value(args@[1]));
            }
        }
        match b {
            Builtin::Print => {
                self.ask(host, HostCall::Print(args));
                Value::Null
            },
            Builtin::Render => {
                if args.len() < 2 {
                    return Value::Null;
                }
                match (&args[0], &args[1]) {
                    (Value::String(t), Value::Dict(ctx)) => Value::String(
                        crate::template::render(t.as_str(), ctx),
                    ),
                    _ => Value::Null,
                }
            },
            Builtin::ReadFile => {
                if args.len() == 0 {
                    return Value::Null;
                }
                match &args[0] {
                    Value::String(p) => {
                        let path = copy_str(p);
                        self.ask(host, HostCall::ReadFile(path))
                    },
                    _ => Value::Null,
                }
            },
            Builtin::Len => {
                if args.len() == 0 {
                    return Value::Null;
                }
                match &args[0] {
                    Value::String(s) => {
                        let n = s.as_str().len();
                        assert(n == utf8_len(s@) as usize);
                        Value::Int(n as i64)
                    },
                    Value::List(l) => {
                        assert(view_values(l@).len() == l.len());
                        Value::Int(l.len() as i64)
                    },
                    Value::Dict(m) => {
                        assert(view_entries(m@).len() == m.len());
                        Value::Int(m.len() as i64)
                    },
                    _ => Value::Int(0),
                }
            },
            Builtin::DbConnect => {
                if args.len() == 0 {
                    return Value::Null;
                }
                match &args[0] {
                    Value::String(u) => {
                        let url = copy_str(u);
                        self.ask(host, HostCall::DbConnect(url))
                    },
                    _ => Value::Null,
                }
            },
            Builtin::DbQuery | Builtin::DbExecute => {
                if args.len() == 0 {
                    return Value::Null;
                }
                match &args[0] {
                    Value::String(q) => {
                        let sql = copy_str(q);
                        let params = sql_params_exec(&args);
                        if b == Builtin::DbQuery {
                            self.ask(host, HostCall::DbQuery { sql, params })
                        } else {
                            self.ask(host, HostCall::DbExecute { sql, params })
                        }
                    },
                    _ => Value::Null,
                }
            },
        }
    }

    /// Evaluates an expression (see `eval`).
    pub fn eval_expr<H: Fn(HostCall) -> Value>(&mut self, e: &Expr, fuel: u64, host: &H) -> (r: Result<Value, EvalError>)
        requires
            host_ready(host),
            old(self).wf(),
        ensures
            step_ok(*old(self), *final(self)),
            hosted(host, *old(self), *final(self)),
            forall|o: Oracle| answered(o, *old(self), *final(self)) ==> #[trigger] eval(old(self).environment@, *e, fuel as nat, o, old(self).pos()) == (Out { res: res_val(r), env: final(self).environment@, calls: made(*old(self), *final(self)) }),
        decreases fuel, 1nat,
    {
        proof {
            lemma_extends_refl(*self);
        }
        if fuel == 0 {
            return Err(EvalError::OutOfFuel);
        }
        let ghost s0 = *self;
        match e {
            Expr::Literal(lit) => match lit {
                Literal::Int(i) => Ok(Value::Int(*i)),
                Literal::Float(t) => {
                    let text = copy_str(t);
                    let v = self.ask(host, HostCall::ParseFloat(text));
                    Ok(v)
                },
                Literal::Bool(b) => Ok(Value::Bool(*b)),
                Literal::Str(t) => Ok(Value::String(copy_str(t))),
                Literal::Null => Ok(Value::Null),
            },
            Expr::Ident(name) => match self.environment.get(name.as_str()) {
                Some(v) => Ok(v),
                None => Err(EvalError::Undefined(copy_str(name))),
            },
            Expr::Binary { .. } => self.eval_binary(e, fuel, host),
            Expr::Unary { .. } => self.eval_unary(e, fuel, host),
            Expr::Call { .. } => self.eval_call(e, fuel, host),
            Expr::List(items) => {
                let r = self.eval_list(items, 0, fuel - 1, host);
                proof {
                    assert forall|o: Oracle| answered(o, s0, *self) implies #[trigger] eval(s0.environment@, *e, fuel as nat, o, s0.pos()) == (Out { res: res_val(match r { Ok(vs) => Ok(Value::List(vs)), Err(x) => Err(x) }), env: self.environment@, calls: made(s0, *self) }) by {
                        assert(eval_list(s0.environment@, items@, 0, (fuel - 1) as nat, o, s0.pos()) == (Out { res: res_vals(r), env: self.environment@, calls: made(s0, *self) }));
                    }
                }
                match r {
                    Ok(vs) => Ok(Value::List(vs)),
                    Err(x) => Err(x),
                }
            },
            Expr::Dict(pairs) => {
                let r = self.eval_pairs(pairs, 0, Vec::new(), fuel - 1, host);
                proof {
                    assert(view_entries(Seq::<(String, Value)>::empty()) =~= Seq::<(Seq<char>, Val)>::empty());
                    assert forall|o: Oracle| answered(o, s0, *self) implies #[trigger] eval(s0.environment@, *e, fuel as nat, o, s0.pos()) == (Out { res: res_val(match r { Ok(m) => Ok(Value::Dict(m)), Err(x) => Err(x) }), env: self.environment@, calls: made(s0, *self) }) by {
                        assert(eval_pairs(s0.environment@, pairs@, 0, Seq::empty(), (fuel - 1) as nat, o, s0.pos()) == (Out { res: res_scope(r), env: self.environment@, calls: made(s0, *self) }));
                    }
                }
                match r {
                    Ok(m) => Ok(Value::Dict(m)),
                    Err(x) => Err(x),
                }
            },
            Expr::Get { .. } | Expr::OptionalGet { .. } => self.eval_get(e, fuel, host),
            Expr::Index { .. } | Expr::OptionalIndex { .. } => self.eval_index(e, fuel, host),
            Expr::StringInterpolation(parts) => {
                let r = self.eval_parts(parts, 0, String::new(), fuel - 1, host);
                proof {
                    assert forall|o: Oracle| answered(o, s0, *self) implies #[trigger] eval(s0.environment@, *e, fuel as nat, o, s0.pos()) == (Out { res: res_val(match r { Ok(t) => Ok(Value::String(t)), Err(x) => Err(x) }), env: self.environment@, calls: made(s0, *self) }) by {
                        assert(eval_parts(s0.environment@, parts@, 0, Seq::empty(), (fuel - 1) as nat, o, s0.pos()) == (Out { res: res_text(r), env: self.environment@, calls: made(s0, *self) }));
                    }
                }
                match r {
                    Ok(t) => Ok(Value::String(t)),
                    Err(x) => Err(x),
                }
            },
        }
    }

    fn eval_binary<H: Fn(HostCall) -> Value>(&mut self, e: &Expr, fuel: u64, host: &H) -> (r: Result<Value, EvalError>)
        requires
            fuel > 0,
            e is Binary,
            host_ready(host),
            old(self).wf(),
        ensures
            step_ok(*old(self), *final(self)),
            hosted(host, *old(self), *final(self)),
            forall|o: Oracle| answered(o, *old(self), *final(self)) ==> #[trigger] eval(old(self).environment@, *e, fuel as nat, o, old(self).pos()) == (Out { res: res_val(r), env: final(self).environment@, calls: made(*old(self), *final(self)) }),
        decreases fuel, 0nat,
    {
        let ghost s0 = *self;
        match e {
            Expr::Binary { op, left, right } => {
                let l = match self.eval_expr(left, fuel - 1, host) {
                    Ok(v) => v,
                    Err(x) => {
                        proof {
                            assert forall|o: Oracle| answered(o, s0, *self) implies #[trigger] eval(s0.environment@, *e, fuel as nat, o, s0.pos()) == (Out::<Val> { res: Err(view_err(x)), env: self.environment@, calls: made(s0, *self) }) by {
                                assert(eval(s0.environment@, **left, (fuel - 1) as nat, o, s0.pos()) == (Out::<Val> { res: Err(view_err(x)), env: self.environment@, calls: made(s0, *self) }));
                            }
                        }
                        return Err(x);
                    },
                };
                let ghost s1 = *self;
                let ghost lv = l@;
                let rv = match self.eval_expr(right, fuel - 1, host) {
                    Ok(v) => v,
                    Err(x) => {
                        proof {
                            assert forall|o: Oracle| answered(o, s0, *self) implies #[trigger] eval(s0.environment@, *e, fuel as nat, o, s0.pos()) == (Out::<Val> { res: Err(view_err(x)), env: self.environment@, calls: made(s0, *self) }) by {
                                lemma_chain(o, s0, s1, *self);
                                assert(eval(s0.environment@, **left, (fuel - 1) as nat, o, s0.pos()) == (Out::<Val> { res: Ok(lv), env: s1.environment@, calls: made(s0, s1) }));
                                assert(eval(s1.environment@, **right, (fuel - 1) as nat, o, s1.pos()) == (Out::<Val> { res: Err(view_err(x)), env: self.environment@, calls: made(s1, *self) }));
                            }
                            lemma_hosted_chain(host, s0, s1, *self);
                        }
                        return Err(x);
                    },
                };
                let ghost s2 = *self;
                let ghost rvv = rv@;
                let res = self.binary_op(*op, l, rv, host);
                proof {
                    assert forall|o: Oracle| answered(o, s0, *self) implies #[trigger] eval(s0.environment@, *e, fuel as nat, o, s0.pos()) == (Out { res: res_val(res), env: self.environment@, calls: made(s0, *self) }) by {
                        lemma_chain(o, s1, s2, *self);
                        lemma_chain(o, s0, s1, *self);
                        lemma_chain(o, s0, s1, s2);
                        assert(eval(s0.environment@, **left, (fuel - 1) as nat, o, s0.pos()) == (Out::<Val> { res: Ok(lv), env: s1.environment@, calls: made(s0, s1) }));
                        assert(eval(s1.environment@, **right, (fuel - 1) as nat, o, s1.pos()) == (Out::<Val> { res: Ok(rvv), env: s2.environment@, calls: made(s1, s2) }));
                        assert(apply_binary(*op, lv, rvv, o, s2.pos()) == (res_val(res), made(s2, *self)));
                        assert(made(s0, *self) =~= made(s0, s1) + made(s1, s2) + made(s2, *self));
                    }
                    lemma_hosted_chain(host, s0, s1, s2);
                    lemma_hosted_chain(host, s0, s2, *self);
                }
                res
            },
            _ => Err(EvalError::OutOfFuel),
        }
    }

    fn eval_unary<H: Fn(HostCall) -> Value>(&mut self, e: &Expr, fuel: u64, host: &H) -> (r: Result<Value, EvalError>)
        requires
            fuel > 0,
            e is Unary,
            host_ready(host),
            old(self).wf(),
        ensures
            step_ok(*old(self), *final(self)),
            hosted(host, *old(self), *final(self)),
            forall|o: Oracle| answered(o, *old(self), *final(self)) ==> #[trigger] eval(old(self).environment@, *e, fuel as nat, o, old(self).pos()) == (Out { res: res_val(r), env: final(self).environment@, calls: made(*old(self), *final(self)) }),
        decreases fuel, 0nat,
    {
        let ghost s0 = *self;
        match e {
            Expr::Unary { op, expr } => {
                let v = match self.eval_expr(expr, fuel - 1, host) {
                    Ok(v) => v,
                    Err(x) => {
                        proof {
                            assert forall|o: Oracle| answered(o, s0, *self) implies #[trigger] eval(s0.environment@, *e, fuel as nat, o, s0.pos()) == (Out::<Val> { res: Err(view_err(x)), env: self.environment@, calls: made(s0, *self) }) by {
                                assert(eval(s0.environment@, **expr, (fuel - 1) as nat, o, s0.pos()) == (Out::<Val> { res: Err(view_err(x)), env: self.environment@, calls: made(s0, *self) }));
                            }
                        }
                        return Err(x);
                    },
                };
                let ghost s1 = *self;
                let ghost vv = v@;
                let res = self.unary_op(*op, v, host);
                proof {
                    assert forall|o: Oracle| answered(o, s0, *self) implies #[trigger] eval(s0.environment@, *e, fuel as nat, o, s0.pos()) == (Out { res: res_val(res), env: self.environment@, calls: made(s0, *self) }) by {
                        lemma_chain(o, s0, s1, *self);
                        assert(eval(s0.environment@, **expr, (fuel - 1) as nat, o, s0.pos()) == (Out::<Val> { res: Ok(vv), env: s1.environment@, calls: made(s0, s1) }));
                        assert(apply_unary(*op, vv, o, s1.pos()) == (res_val(res), made(s1, *self)));
                    }
                    lemma_hosted_chain(host, s0, s1, *self);
                }
                res
            },
            _ => Err(EvalError::OutOfFuel),
        }
    }

    fn eval_get<H: Fn(HostCall) -> Value>(&mut self, e: &Expr, fuel: u64, host: &H) -> (r: Result<Value, EvalError>)
        requires
            fuel > 0,
            e is Get || e is OptionalGet,
            host_ready(host),
            old(self).wf(),
        ensures
            step_ok(*old(self), *final(self)),
            hosted(host, *old(self), *final(self)),
            forall|o: Oracle| answered(o, *old(self), *final(self)) ==> #[trigger] eval(old(self).environment@, *e, fuel as nat, o, old(self).pos()) == (Out { res: res_val(r), env: final(self).environment@, calls: made(*old(self), *final(self)) }),
        decreases fuel, 0nat,
    {
        let ghost s0 = *self;
        let (object, name, optional) = match e {
            Expr::Get { object, name } => (object, name, false),
            Expr::OptionalGet { object, name } => (object, name, true),
            _ => {
                return Err(EvalError::OutOfFuel);
            },
        };
        assert(optional <==> e is OptionalGet);
        let v = match self.eval_expr(object, fuel - 1, host) {
            Ok(v) => v,
            Err(x) => {
                proof {
                    assert forall|o: Oracle| answered(o, s0, *self) implies #[trigger] eval(s0.environment@, *e, fuel as nat, o, s0.pos()) == (Out::<Val> { res: Err(view_err(x)), env: self.environment@, calls: made(s0, *self) }) by {
                        assert(eval(s0.environment@, **object, (fuel - 1) as nat, o, s0.pos()) == (Out::<Val> { res: Err(view_err(x)), env: self.environment@, calls: made(s0, *self) }));
                    }
                }
                return Err(x);
            },
        };
        let ghost vv = v@;
        let res = if optional && v.is_null() {
            Ok(Value::Null)
        } else {
            match &v {
                Value::Dict(m) => match dict_get(m, name.as_str()) {
                    Some(x) => Ok(x),
                    None => Ok(Value::Null),
                },
                _ => Err(EvalError::NotAMap),
            }
        };
        proof {
            assert forall|o: Oracle| answered(o, s0, *self) implies #[trigger] eval(s0.environment@, *e, fuel as nat, o, s0.pos()) == (Out { res: res_val(res), env: self.environment@, calls: made(s0, *self) }) by {
                assert(eval(s0.environment@, **object, (fuel - 1) as nat, o, s0.pos()) == (Out::<Val> { res: Ok(vv), env: self.environment@, calls: made(s0, *self) }));
                if !(optional && vv is Null) {
                    assert(res_val(res) == get_field(vv, name@));
                }
            }
        }
        res
    }

    fn eval_index<H: Fn(HostCall) -> Value>(&mut self, e: &Expr, fuel: u64, host: &H) -> (r: Result<Value, EvalError>)
        requires
            fuel > 0,
            e is Index || e is OptionalIndex,
            host_ready(host),
            old(self).wf(),
        ensures
            step_ok(*old(self), *final(self)),
            hosted(host, *old(self), *final(self)),
            forall|o: Oracle| answered(o, *old(self), *final(self)) ==> #[trigger] eval(old(self).environment@, *e, fuel as nat, o, old(self).pos()) == (Out { res: res_val(r), env: final(self).environment@, calls: made(*old(self), *final(self)) }),
        decreases fuel, 0nat,
    {
        let ghost s0 = *self;
        let (object, index, optional) = match e {
            Expr::Index { object, index } => (object, index, false),
            Expr::OptionalIndex { object, index } => (object, index, true),
            _ => {
                return Err(EvalError::OutOfFuel);
            },
        };
        assert(optional <==> e is OptionalIndex);
        let v = match self.eval_expr(object, fuel - 1, host) {
            Ok(v) => v,
            Err(x) => {
                proof {
                    assert forall|o: Oracle| answered(o, s0, *self) implies #[trigger] eval(s0.environment@, *e, fuel as nat, o, s0.pos()) == (Out::<Val> { res: Err(view_err(x)), env: self.environment@, calls: made(s0, *self) }) by {
                        assert(eval(s0.environment@, **object, (fuel - 1) as nat, o, s0.pos()) == (Out::<Val> { res: Err(view_err(x)), env: self.environment@, calls: made(s0, *self) }));
                    }
                }
                return Err(x);
            },
        };
        let ghost s1 = *self;
        let ghost vv = v@;
        if optional && v.is_null() {
            proof {
                assert forall|o: Oracle| answered(o, s0, *self) implies #[trigger] eval(s0.environment@, *e, fuel as nat, o, s0.pos()) == (Out { res: res_val(Ok::<Value, EvalError>(Value::Null)), env: self.environment@, calls: made(s0, *self) }) by {
                    assert(eval(s0.environment@, **object, (fuel - 1) as nat, o, s0.pos()) == (Out::<Val> { res: Ok(vv), env: self.environment@, calls: made(s0, *self) }));
                }
            }
            return Ok(Value::Null);
        }
        let i = match self.eval_expr(index, fuel - 1, host) {
            Ok(i) => i,
            Err(x) => {
                proof {
                    assert forall|o: Oracle| answered(o, s0, *self) implies #[trigger] eval(s0.environment@, *e, fuel as nat, o, s0.pos()) == (Out::<Val> { res: Err(view_err(x)), env: self.environment@, calls: made(s0, *self) }) by {
                        lemma_chain(o, s0, s1, *self);
                        assert(eval(s0.environment@, **object, (fuel - 1) as nat, o, s0.pos()) == (Out::<Val> { res: Ok(vv), env: s1.environment@, calls: made(s0, s1) }));
                        assert(eval(s1.environment@, **index, (fuel - 1) as nat, o, s1.pos()) == (Out::<Val> { res: Err(view_err(x)), env: self.environment@, calls: made(s1, *self) }));
                    }
                }
                return Err(x);
            },
        };
        let ghost iv = i@;
        let res = index_exec(&v, &i);
        proof {
            assert forall|o: Oracle| answered(o, s0, *self) implies #[trigger] eval(s0.environment@, *e, fuel as nat, o, s0.pos()) == (Out { res: res_val(res), env: self.environment@, calls: made(s0, *self) }) by {
                lemma_chain(o, s0, s1, *self);
                assert(eval(s0.environment@, **object, (fuel - 1) as nat, o, s0.pos()) == (Out::<Val> { res: Ok(vv), env: s1.environment@, calls: made(s0, s1) }));
                assert(eval(s1.environment@, **index, (fuel - 1) as nat, o, s1.pos()) == (Out::<Val> { res: Ok(iv), env: self.environment@, calls: made(s1, *self) }));
            }
        }
        res
    }

    fn eval_call<H: Fn(HostCall) -> Value>(&mut self, e: &Expr, fuel: u64, host: &H) -> (r: Result<Value, EvalError>)
        requires
            fuel > 0,
            e is Call,
            host_ready(host),
            old(self).wf(),
        ensures
            step_ok(*old(self), *final(self)),
            hosted(host, *old(self), *final(self)),
            forall|o: Oracle| answered(o, *old(self), *final(self)) ==> #[trigger] eval(old(self).environment@, *e, fuel as nat, o, old(self).pos()) == (Out { res: res_val(r), env: final(self).environment@, calls: made(*old(self), *final(self)) }),
        decreases fuel, 0nat,
    {
        let ghost s0 = *self;
        match e {
            Expr::Call { callee, args } => {
                let c = match self.eval_expr(callee, fuel - 1, host) {
                    Ok(v) => v,
                    Err(x) => {
                        proof {
                            assert forall|o: Oracle| answered(o, s0, *self) implies #[trigger] eval(s0.environment@, *e, fuel as nat, o, s0.pos()) == (Out::<Val> { res: Err(view_err(x)), env: self.environment@, calls: made(s0, *self) }) by {
                                assert(eval(s0.environment@, **callee, (fuel - 1) as nat, o, s0.pos()) == (Out::<Val> { res: Err(view_err(x)), env: self.environment@, calls: made(s0, *self) }));
                            }
                        }
                        return Err(x);
                    },
                };
                let ghost s1 = *self;
                let ghost cv = c@;
                let vs = match self.eval_list(args, 0, fuel - 1, host) {
                    Ok(vs) => vs,
                    Err(x) => {
                        proof {
                            assert forall|o: Oracle| answered(o, s0, *self) implies #[trigger] eval(s0.environment@, *e, fuel as nat, o, s0.pos()) == (Out::<Val> { res: Err(view_err(x)), env: self.environment@, calls: made(s0, *self) }) by {
                                lemma_chain(o, s0, s1, *self);
                                assert(eval(s0.environment@, **callee, (fuel - 1) as nat, o, s0.pos()) == (Out::<Val> { res: Ok(cv), env: s1.environment@, calls: made(s0, s1) }));
                                assert(eval_list(s1.environment@, args@, 0, (fuel - 1) as nat, o, s1.pos()) == (Out::<Seq<Val>> { res: Err(view_err(x)), env: self.environment@, calls: made(s1, *self) }));
                            }
                        }
                        return Err(x);
                    },
                };
                let ghost s2 = *self;
                let ghost vsv = view_values(vs@);
                let res = self.call_value(c, vs, fuel - 1, host);
                proof {
                    assert forall|o: Oracle| answered(o, s0, *self) implies #[trigger] eval(s0.environment@, *e, fuel as nat, o, s0.pos()) == (Out { res: res_val(res), env: self.environment@, calls: made(s0, *self) }) by {
                        lemma_chain(o, s1, s2, *self);
                        lemma_chain(o, s0, s1, *self);
                        lemma_chain(o, s0, s1, s2);
                        assert(eval(s0.environment@, **callee, (fuel - 1) as nat, o, s0.pos()) == (Out::<Val> { res: Ok(cv), env: s1.environment@, calls: made(s0, s1) }));
                        assert(eval_list(s1.environment@, args@, 0, (fuel - 1) as nat, o, s1.pos()) == (Out::<Seq<Val>> { res: Ok(vsv), env: s2.environment@, calls: made(s1, s2) }));
                        assert(call_value(s2.environment@, cv, vsv, (fuel - 1) as nat, o, s2.pos()) == (Out { res: res_val(res), env: self.environment@, calls: made(s2, *self) }));
                        assert(made(s0, *self) =~= made(s0, s1) + made(s1, s2) + made(s2, *self));
                    }
                }
                res
            },
            _ => Err(EvalError::OutOfFuel),
        }
    }

    /// Evaluates `es[i..]` from left to right (see `eval_list`).
    fn eval_list<H: Fn(HostCall) -> Value>(&mut self, es: &Vec<Expr>, i: usize, fuel: u64, host: &H) -> (r: Result<Vec<Value>, EvalError>)
        requires
            host_ready(host),
            old(self).wf(),
        ensures
            step_ok(*old(self), *final(self)),
            hosted(host, *old(self), *final(self)),
            forall|o: Oracle| answered(o, *old(self), *final(self)) ==> #[trigger] eval_list(old(self).environment@, es@, i as nat, fuel as nat, o, old(self).pos()) == (Out { res: res_vals(r), env: final(self).environment@, calls: made(*old(self), *final(self)) }),
        decreases fuel, es.len() - i,
    {
        proof {
            lemma_extends_refl(*self);
        }
        if fuel == 0 {
            return Err(EvalError::OutOfFuel);
        }
        if i >= es.len() {
            proof {
                assert(view_values(Seq::<Value>::empty()) =~= Seq::<Val>::empty());
            }
            return Ok(Vec::new());
        }
        let ghost s0 = *self;
        let x0 = &es[i];
        assert(*x0 == es@[i as int]);
        let v = match self.eval_expr(x0, fuel - 1, host) {
            Ok(v) => v,
            Err(x) => {
                proof {
                    assert forall|o: Oracle| answered(o, s0, *self) implies #[trigger] eval_list(s0.environment@, es@, i as nat, fuel as nat, o, s0.pos()) == (Out::<Seq<Val>> { res: Err(view_err(x)), env: self.environment@, calls: made(s0, *self) }) by {
                        assert(eval(s0.environment@, *x0, (fuel - 1) as nat, o, s0.pos()) == (Out::<Val> { res: Err(view_err(x)), env: self.environment@, calls: made(s0, *self) }));
                    }
                }
                return Err(x);
            },
        };
        let ghost s1 = *self;
        let ghost vv = v@;
        let mut rest = match self.eval_list(es, i + 1, fuel, host) {
            Ok(vs) => vs,
            Err(x) => {
                proof {
                    assert forall|o: Oracle| answered(o, s0, *self) implies #[trigger] eval_list(s0.environment@, es@, i as nat, fuel as nat, o, s0.pos()) == (Out::<Seq<Val>> { res: Err(view_err(x)), env: self.environment@, calls: made(s0, *self) }) by {
                        lemma_chain(o, s0, s1, *self);
                        assert(eval(s0.environment@, *x0, (fuel - 1) as nat, o, s0.pos()) == (Out::<Val> { res: Ok(vv), env: s1.environment@, calls: made(s0, s1) }));
                        assert(eval_list(s1.environment@, es@, (i + 1) as nat, fuel as nat, o, s1.pos()) == (Out::<Seq<Val>> { res: Err(view_err(x)), env: self.environment@, calls: made(s1, *self) }));
                    }
                }
                return Err(x);
            },
        };
        let ghost restv = view_values(rest@);
        rest.insert(0, v);
        proof {
            crate::model::lemma_view_values_ext(rest@, seq![vv] + restv);
            assert forall|o: Oracle| answered(o, s0, *self) implies #[trigger] eval_list(s0.environment@, es@, i as nat, fuel as nat, o, s0.pos()) == (Out { res: res_vals(Ok::<Vec<Value>, EvalError>(rest)), env: self.environment@, calls: made(s0, *self) }) by {
                lemma_chain(o, s0, s1, *self);
                assert(eval(s0.environment@, *x0, (fuel - 1) as nat, o, s0.pos()) == (Out::<Val> { res: Ok(vv), env: s1.environment@, calls: made(s0, s1) }));
                assert(eval_list(s1.environment@, es@, (i + 1) as nat, fuel as nat, o, s1.pos()) == (Out::<Seq<Val>> { res: Ok(restv), env: self.environment@, calls: made(s1, *self) }));
            }
        }
        Ok(rest)
    }

    /// Evaluates the entries `ps[i..]` of a dictionary literal into `acc` (see `eval_pairs`).
    fn eval_pairs<H: Fn(HostCall) -> Value>(&mut self, ps: &Vec<(Expr, Expr)>, i: usize, acc: Vec<(String, Value)>, fuel: u64, host: &H) -> (r: Result<Vec<(String, Value)>, EvalError>)
        requires
            host_ready(host),
            old(self).wf(),
        ensures
            step_ok(*old(self), *final(self)),
            hosted(host, *old(self), *final(self)),
            forall|o: Oracle| answered(o, *old(self), *final(self)) ==> #[trigger] eval_pairs(old(self).environment@, ps@, i as nat, view_entries(acc@), fuel as nat, o, old(self).pos()) == (Out { res: res_scope(r), env: final(self).environment@, calls: made(*old(self), *final(self)) }),
        decreases fuel, ps.len() - i,
    {
        proof {
            lemma_extends_refl(*self);
        }
        if fuel == 0 {
            return Err(EvalError::OutOfFuel);
        }
        if i >= ps.len() {
            return Ok(acc);
        }
        let ghost s0 = *self;
        let ghost accv = view_entries(acc@);
        let kx = &ps[i].0;
        let vx = &ps[i].1;
        assert(*kx == ps@[i as int].0 && *vx == ps@[i as int].1);
        let k = match self.eval_expr(kx, fuel - 1, host) {
            Ok(v) => v,
            Err(x) => {
                proof {
                    assert forall|o: Oracle| answered(o, s0, *self) implies #[trigger] eval_pairs(s0.environment@, ps@, i as nat, accv, fuel as nat, o, s0.pos()) == (Out::<Seq<(Seq<char>, Val)>> { res: Err(view_err(x)), env: self.environment@, calls: made(s0, *self) }) by {
                        assert(eval(s0.environment@, *kx, (fuel - 1) as nat, o, s0.pos()) == (Out::<Val> { res: Err(view_err(x)), env: self.environment@, calls: made(s0, *self) }));
                    }
                }
                return Err(x);
            },
        };
        let ghost s1 = *self;
        let ghost kv = k@;
        let v = match self.eval_expr(vx, fuel - 1, host) {
            Ok(v) => v,
            Err(x) => {
                proof {
                    assert forall|o: Oracle| answered(o, s0, *self) implies #[trigger] eval_pairs(s0.environment@, ps@, i as nat, accv, fuel as nat, o, s0.pos()) == (Out::<Seq<(Seq<char>, Val)>> { res: Err(view_err(x)), env: self.environment@, calls: made(s0, *self) }) by {
                        lemma_chain(o, s0, s1, *self);
                        assert(eval(s0.environment@, *kx, (fuel - 1) as nat, o, s0.pos()) == (Out::<Val> { res: Ok(kv), env: s1.environment@, calls: made(s0, s1) }));
                        assert(eval(s1.environment@, *vx, (fuel - 1) as nat, o, s1.pos()) == (Out::<Val> { res: Err(view_err(x)), env: self.environment@, calls: made(s1, *self) }));
                    }
                }
                return Err(x);
            },
        };
        let ghost s2 = *self;
        let ghost vv = v@;
        match k {
            Value::String(key) => {
                let mut acc = acc;
                dict_insert(&mut acc, key, v);
                let ghost acc2 = view_entries(acc@);
                let res = self.eval_pairs(ps, i + 1, acc, fuel, host);
                proof {
                    assert forall|o: Oracle| answered(o, s0, *self) implies #[trigger] eval_pairs(s0.environment@, ps@, i as nat, accv, fuel as nat, o, s0.pos()) == (Out { res: res_scope(res), env: self.environment@, calls: made(s0, *self) }) by {
                        lemma_chain(o, s1, s2, *self);
                        lemma_chain(o, s0, s1, *self);
                        lemma_chain(o, s0, s1, s2);
                        assert(eval(s0.environment@, *kx, (fuel - 1) as nat, o, s0.pos()) == (Out::<Val> { res: Ok(kv), env: s1.environment@, calls: made(s0, s1) }));
                        assert(eval(s1.environment@, *vx, (fuel - 1) as nat, o, s1.pos()) == (Out::<Val> { res: Ok(vv), env: s2.environment@, calls: made(s1, s2) }));
                        assert(eval_pairs(s2.environment@, ps@, (i + 1) as nat, acc2, fuel as nat, o, s2.pos()) == (Out { res: res_scope(res), env: self.environment@, calls: made(s2, *self) }));
                        assert(made(s0, *self) =~= made(s0, s1) + made(s1, s2) + made(s2, *self));
                    }
                }
                res
            },
            _ => {
                proof {
                    assert forall|o: Oracle| answered(o, s0, *self) implies #[trigger] eval_pairs(s0.environment@, ps@, i as nat, accv, fuel as nat, o, s0.pos()) == (Out::<Seq<(Seq<char>, Val)>> { res: Err(Fault::KeyNotString), env: self.environment@, calls: made(s0, *self) }) by {
                        lemma_chain(o, s0, s1, *self);
                        assert(eval(s0.environment@, *kx, (fuel - 1) as nat, o, s0.pos()) == (Out::<Val> { res: Ok(kv), env: s1.environment@, calls: made(s0, s1) }));
                        assert(eval(s1.environment@, *vx, (fuel - 1) as nat, o, s1.pos()) == (Out::<Val> { res: Ok(vv), env: self.environment@, calls: made(s1, *self) }));
                    }
                }
                Err(EvalError::KeyNotString)
            },
        }
    }

    /// Evaluates the parts `es[i..]` of an interpolated string onto `acc` (see `eval_parts`).
    fn eval_parts<H: Fn(HostCall) -> Value>(&mut self, es: &Vec<Expr>, i: usize, acc: String, fuel: u64, host: &H) -> (r: Result<String, EvalError>)
        requires
            host_ready(host),
            old(self).wf(),
        ensures
            step_ok(*old(self), *final(self)),
            hosted(host, *old(self), *final(self)),
            forall|o: Oracle| answered(o, *old(self), *final(self)) ==> #[trigger] eval_parts(old(self).environment@, es@, i as nat, acc@, fuel as nat, o, old(self).pos()) == (Out { res: res_text(r), env: final(self).environment@, calls: made(*old(self), *final(self)) }),
        decreases fuel, es.len() - i,
    {
        proof {
            lemma_extends_refl(*self);
        }
        if fuel == 0 {
            return Err(EvalError::OutOfFuel);
        }
        if i >= es.len() {
            return Ok(acc);
        }
        let ghost s0 = *self;
        let ghost acc0 = acc@;
        let x0 = &es[i];
        assert(*x0 == es@[i as int]);
        let v = match self.eval_expr(x0, fuel - 1, host) {
            Ok(v) => v,
            Err(x) => {
                proof {
                    assert forall|o: Oracle| answered(o, s0, *self) implies #[trigger] eval_parts(s0.environment@, es@, i as nat, acc0, fuel as nat, o, s0.pos()) == (Out::<Seq<char>> { res: Err(view_err(x)), env: self.environment@, calls: made(s0, *self) }) by {
                        assert(eval(s0.environment@, *x0, (fuel - 1) as nat, o, s0.pos()) == (Out::<Val> { res: Err(view_err(x)), env: self.environment@, calls: made(s0, *self) }));
                    }
                }
                return Err(x);
            },
        };
        let ghost s1 = *self;
        let ghost vv = v@;
        let t = v.to_text();
        let mut acc = acc;
        acc.append(t.as_str());
        let ghost acc1 = acc@;
        let res = self.eval_parts(es, i + 1, acc, fuel, host);
        proof {
            assert forall|o: Oracle| answered(o, s0, *self) implies #[trigger] eval_parts(s0.environment@, es@, i as nat, acc0, fuel as nat, o, s0.pos()) == (Out { res: res_text(res), env: self.environment@, calls: made(s0, *self) }) by {
                lemma_chain(o, s0, s1, *self);
                assert(eval(s0.environment@, *x0, (fuel - 1) as nat, o, s0.pos()) == (Out::<Val> { res: Ok(vv), env: s1.environment@, calls: made(s0, s1) }));
                assert(eval_parts(s1.environment@, es@, (i + 1) as nat, acc1, fuel as nat, o, s1.pos()) == (Out { res: res_text(res), env: self.environment@, calls: made(s1, *self) }));
            }
            lemma_hosted_chain(host, s0, s1, *self);
        }
        res
    }
}

fn param_names_exec(params: &Vec<(String, Option<String>)>) -> (r: Vec<String>)
    ensures
        crate::model::string_views(r@) == param_names(params@),
{
    let mut r: Vec<String> = Vec::new();
    let mut i: usize = 0;
    while i < params.len()
        invariant
            i <= params.len(),
            r@.len() == i,
            forall|j: int| 0 <= j < i ==> (#[trigger] r@[j])@ == params@[j].0@,
        decreases params.len() - i,
    {
        r.push(copy_str(&params[i].0));
        i = i + 1;
    }
    assert(crate::model::string_views(r@) =~= param_names(params@));
    r
}

proof fn lemma_bind_step(p: Seq<Seq<char>>, a: Seq<Val>, i: int)
    requires
        0 <= i < p.len(),
        p.len() == a.len(),
    ensures
        bind_params(p.subrange(0, i + 1), a.subrange(0, i + 1)) == insert_entry(
            bind_params(p.subrange(0, i), a.subrange(0, i)),
            p[i],
            a[i],
        ),
{
    assert(p.subrange(0, i + 1).drop_last() =~= p.subrange(0, i));
    assert(a.subrange(0, i + 1).drop_last() =~= a.subrange(0, i));
}

impl Interpreter {
    /// Calls a value with evaluated arguments (see `call_value`).
    fn call_value<H: Fn(HostCall) -> Value>(&mut self, callee: Value, args: Vec<Value>, fuel: u64, host: &H) -> (r: Result<Value, EvalError>)
        requires
            host_ready(host),
            old(self).wf(),
        ensures
            step_ok(*old(self), *final(self)),
            hosted(host, *old(self), *final(self)),
            forall|o: Oracle| answered(o, *old(self), *final(self)) ==> #[trigger] call_value(old(self).environment@, callee@, view_values(args@), fuel as nat, o, old(self).pos()) == (Out { res: res_val(r), env: final(self).environment@, calls: made(*old(self), *final(self)) }),
        decreases fuel, 1nat,
    {
        proof {
            lemma_extends_refl(*self);
        }
        if fuel == 0 {
            return Err(EvalError::OutOfFuel);
        }
        match callee {
            Value::Function { params, body } => {
                if params.len() != args.len() {
                    return Err(EvalError::Arity { expected: params.len(), got: args.len() });
                }
                let ghost s0 = *self;
                let scope = bind_params_exec(&params, &args);
                let ghost sv = view_entries(scope@);
                let r = self.call_function(scope, &*body, fuel, host);
                proof {
                    assert forall|o: Oracle| answered(o, s0, *self) implies #[trigger] call_value(s0.environment@, Val::Func(crate::model::string_views(params@), (*body)@), view_values(args@), fuel as nat, o, s0.pos()) == (Out { res: res_val(r), env: self.environment@, calls: made(s0, *self) }) by {
                        assert(call_body(s0.environment@, sv, (*body)@, (fuel - 1) as nat, o, s0.pos()) == (Out { res: res_val(r), env: self.environment@, calls: made(s0, *self) }));
                    }
                }
                r
            },
            Value::Builtin(b) => {
                let v = self.builtin(b, args, host);
                Ok(v)
            },
            _ => Err(EvalError::NotCallable),
        }
    }

    /// Runs a function body in a scope of its own over the globals, then puts the
    /// caller's other scopes back.
    fn call_function<H: Fn(HostCall) -> Value>(&mut self, scope: Vec<(String, Value)>, body: &Vec<Stmt>, fuel: u64, host: &H) -> (r: Result<Value, EvalError>)
        requires
            fuel > 0,
            host_ready(host),
            old(self).wf(),
        ensures
            step_ok(*old(self), *final(self)),
            hosted(host, *old(self), *final(self)),
            forall|o: Oracle| answered(o, *old(self), *final(self)) ==> #[trigger] call_body(old(self).environment@, view_entries(scope@), body@, (fuel - 1) as nat, o, old(self).pos()) == (Out { res: res_val(r), env: final(self).environment@, calls: made(*old(self), *final(self)) }),
        decreases fuel, 0nat,
    {
        let ghost s0 = *self;
        let ghost bound = view_entries(scope@);
        let ghost env0 = self.environment@;
        let mut saved = self.environment.scopes.split_off(1);
        let ghost savedv = crate::environment::view_scopes(saved@);
        assert(savedv =~= env0.subrange(1, env0.len() as int));
        self.environment.push_bindings(scope);
        assert(self.environment@ =~= seq![env0[0], bound]);
        let ghost s1 = *self;
        let res = self.exec_block(body, fuel - 1, host);
        let ghost s2 = *self;
        let ghost benv = self.environment@;
        self.environment.scopes.truncate(1);
        self.environment.scopes.append(&mut saved);
        let r = match res {
            Ok(ControlFlow::Return(v)) => Ok(v),
            Ok(ControlFlow::Normal) => Ok(Value::Null),
            Err(x) => Err(x),
        };
        proof {
            assert(self.environment@ =~= seq![benv[0]] + savedv);
            assert forall|o: Oracle| answered(o, s0, *self) implies #[trigger] call_body(env0, bound, body@, (fuel - 1) as nat, o, s0.pos()) == (Out { res: res_val(r), env: self.environment@, calls: made(s0, *self) }) by {
                assert(made(s0, *self) == made(s1, s2));
                assert(answered(o, s1, s2));
                assert(exec_block(s1.environment@, body@, (fuel - 1) as nat, o, s1.pos()) == (Out { res: res_flow(res), env: s2.environment@, calls: made(s1, s2) }));
            }
        }
        r
    }

    /// Runs a block in a new innermost scope (see `exec_block`).
    fn exec_block<H: Fn(HostCall) -> Value>(&mut self, ss: &Vec<Stmt>, fuel: u64, host: &H) -> (r: Result<ControlFlow, EvalError>)
        requires
            host_ready(host),
            old(self).wf(),
        ensures
            step_ok(*old(self), *final(self)),
            hosted(host, *old(self), *final(self)),
            forall|o: Oracle| answered(o, *old(self), *final(self)) ==> #[trigger] exec_block(old(self).environment@, ss@, fuel as nat, o, old(self).pos()) == (Out { res: res_flow(r), env: final(self).environment@, calls: made(*old(self), *final(self)) }),
        decreases fuel, 0nat,
    {
        proof {
            lemma_extends_refl(*self);
        }
        if fuel == 0 {
            return Err(EvalError::OutOfFuel);
        }
        let ghost s0 = *self;
        self.environment.push_scope();
        let ghost s1 = *self;
        let r = self.exec_stmts(ss, fuel - 1, host);
        let ghost s2 = *self;
        self.environment.pop_scope();
        proof {
            assert forall|o: Oracle| answered(o, s0, *self) implies #[trigger] exec_block(s0.environment@, ss@, fuel as nat, o, s0.pos()) == (Out { res: res_flow(r), env: self.environment@, calls: made(s0, *self) }) by {
                assert(made(s0, *self) == made(s1, s2));
                assert(answered(o, s1, s2));
                assert(exec_stmts(s1.environment@, ss@, 0, (fuel - 1) as nat, o, s1.pos()) == (Out { res: res_flow(r), env: s2.environment@, calls: made(s1, s2) }));
            }
        }
        r
    }

    /// Runs the statements of a block in order, until one returns or fails (see `exec_stmts`).
    #[verifier::rlimit(40)]
    fn exec_stmts<H: Fn(HostCall) -> Value>(&mut self, ss: &Vec<Stmt>, fuel: u64, host: &H) -> (r: Result<ControlFlow, EvalError>)
        requires
            host_ready(host),
            old(self).wf(),
        ensures
            step_ok(*old(self), *final(self)),
            hosted(host, *old(self), *final(self)),
            forall|o: Oracle| answered(o, *old(self), *final(self)) ==> #[trigger] exec_stmts(old(self).environment@, ss@, 0, fuel as nat, o, old(self).pos()) == (Out { res: res_flow(r), env: final(self).environment@, calls: made(*old(self), *final(self)) }),
        decreases fuel, 0nat,
    {
        proof {
            lemma_extends_refl(*self);
        }
        if fuel == 0 {
            return Err(EvalError::OutOfFuel);
        }
        let ghost s0 = *self;
        let mut i: usize = 0;
        proof {
            assert forall|o: Oracle| answered(o, s0, *self) implies #[trigger] exec_stmts(s0.environment@, ss@, 0, fuel as nat, o, s0.pos()) == prepend(made(s0, *self), exec_stmts(self.environment@, ss@, i as nat, fuel as nat, o, self.pos())) by {
                let w = exec_stmts(self.environment@, ss@, i as nat, fuel as nat, o, self.pos());
                assert(Seq::<Request>::empty() + w.calls =~= w.calls);
            }
        }
        while i < ss.len()
            invariant
                host_ready(host),
                fuel > 0,
                i <= ss.len(),
                step_ok(s0, *self),
                s0 == *old(self),
                hosted(host, s0, *self),
                s0.wf(),
                forall|o: Oracle| answered(o, s0, *self) ==> #[trigger] exec_stmts(s0.environment@, ss@, 0, fuel as nat, o, s0.pos()) == prepend(made(s0, *self), exec_stmts(self.environment@, ss@, i as nat, fuel as nat, o, self.pos())),
            decreases ss.len() - i,
        {
            let ghost s1 = *self;
            let st = &ss[i];
            assert(*st == ss@[i as int]);
            let r = self.exec_stmt(st, fuel - 1, host);
            let ghost s2 = *self;

            proof {

                lemma_hosted_chain(host, s0, s1, s2);

            }
            proof {
                assert forall|o: Oracle| answered(o, s0, s2) implies #[trigger] exec_stmts(s0.environment@, ss@, 0, fuel as nat, o, s0.pos()) == prepend(made(s0, s1), exec_stmts(s1.environment@, ss@, i as nat, fuel as nat, o, s1.pos())) && exec_stmt(s1.environment@, ss@[i as int], (fuel - 1) as nat, o, s1.pos()) == (Out { res: res_flow(r), env: s2.environment@, calls: made(s1, s2) }) by {
                    lemma_chain(o, s0, s1, s2);
                }
            }
            match r {
                Ok(ControlFlow::Normal) => {},
                _ => {
                    proof {
                        assert forall|o: Oracle| answered(o, s0, *self) implies #[trigger] exec_stmts(s0.environment@, ss@, 0, fuel as nat, o, s0.pos()) == (Out { res: res_flow(r), env: self.environment@, calls: made(s0, *self) }) by {
                            lemma_chain(o, s0, s1, *self);
                            assert(exec_stmts(s0.environment@, ss@, 0, fuel as nat, o, s0.pos()) == prepend(made(s0, s1), exec_stmts(s1.environment@, ss@, i as nat, fuel as nat, o, s1.pos())));
                            assert(exec_stmt(s1.environment@, ss@[i as int], (fuel - 1) as nat, o, s1.pos()) == (Out { res: res_flow(r), env: s2.environment@, calls: made(s1, s2) }));
                        }
                    }
                    return r;
                },
            }
            i = i + 1;
            proof {
                assert forall|o: Oracle| answered(o, s0, *self) implies #[trigger] exec_stmts(s0.environment@, ss@, 0, fuel as nat, o, s0.pos()) == prepend(made(s0, *self), exec_stmts(self.environment@, ss@, i as nat, fuel as nat, o, self.pos())) by {
                    lemma_chain(o, s0, s1, *self);
                    assert(exec_stmts(s0.environment@, ss@, 0, fuel as nat, o, s0.pos()) == prepend(made(s0, s1), exec_stmts(s1.environment@, ss@, (i - 1) as nat, fuel as nat, o, s1.pos())));
                    assert(exec_stmt(s1.environment@, ss@[i - 1], (fuel - 1) as nat, o, s1.pos()) == (Out { res: res_flow(r), env: s2.environment@, calls: made(s1, s2) }));
                    lemma_prepend_assoc(made(s0, s1), made(s1, *self), exec_stmts(self.environment@, ss@, i as nat, fuel as nat, o, self.pos()));
                }
            }
        }
        proof {
            assert forall|o: Oracle| answered(o, s0, *self) implies #[trigger] exec_stmts(s0.environment@, ss@, 0, fuel as nat, o, s0.pos()) == (Out { res: res_flow(Ok::<ControlFlow, EvalError>(ControlFlow::Normal)), env: self.environment@, calls: made(s0, *self) }) by {
                assert(exec_stmts(s0.environment@, ss@, 0, fuel as nat, o, s0.pos()) == prepend(made(s0, *self), exec_stmts(self.environment@, ss@, i as nat, fuel as nat, o, self.pos())));
                assert(made(s0, *self) + Seq::<Request>::empty() =~= made(s0, *self));
            }
        }
        Ok(ControlFlow::Normal)
    }

    /// Runs a `while` loop (see `exec_while`).
    fn exec_while<H: Fn(HostCall) -> Value>(&mut self, cond: &Expr, body: &Vec<Stmt>, fuel: u64, host: &H) -> (r: Result<ControlFlow, EvalError>)
        requires
            host_ready(host),
            old(self).wf(),
        ensures
            step_ok(*old(self), *final(self)),
            hosted(host, *old(self), *final(self)),
            forall|o: Oracle| answered(o, *old(self), *final(self)) ==> #[trigger] exec_while(old(self).environment@, *cond, body@, fuel as nat, o, old(self).pos()) == (Out { res: res_flow(r), env: final(self).environment@, calls: made(*old(self), *final(self)) }),
        decreases fuel, 0nat,
    {
        proof {
            lemma_extends_refl(*self);
        }
        let ghost s0 = *self;
        let mut f: u64 = fuel;
        proof {
            assert forall|o: Oracle| answered(o, s0, *self) implies #[trigger] exec_while(s0.environment@, *cond, body@, fuel as nat, o, s0.pos()) == prepend(made(s0, *self), exec_while(self.environment@, *cond, body@, f as nat, o, self.pos())) by {
                let w = exec_while(self.environment@, *cond, body@, f as nat, o, self.pos());
                assert(Seq::<Request>::empty() + w.calls =~= w.calls);
            }
        }
        loop
            invariant
                host_ready(host),
                f <= fuel,
                step_ok(s0, *self),
                s0 == *old(self),
                hosted(host, s0, *self),
                s0.wf(),
                forall|o: Oracle| answered(o, s0, *self) ==> #[trigger] exec_while(s0.environment@, *cond, body@, fuel as nat, o, s0.pos()) == prepend(made(s0, *self), exec_while(self.environment@, *cond, body@, f as nat, o, self.pos())),
            decreases f,
        {
            let ghost s1 = *self;
            if f == 0 {
                proof {
                    assert forall|o: Oracle| answered(o, s0, *self) implies #[trigger] exec_while(s0.environment@, *cond, body@, fuel as nat, o, s0.pos()) == (Out { res: res_flow(Err::<ControlFlow, EvalError>(EvalError::OutOfFuel)), env: self.environment@, calls: made(s0, *self) }) by {
                        assert(exec_while(s0.environment@, *cond, body@, fuel as nat, o, s0.pos()) == prepend(made(s0, *self), exec_while(self.environment@, *cond, body@, f as nat, o, self.pos())));
                        assert(made(s0, *self) + Seq::<Request>::empty() =~= made(s0, *self));
                    }
                }
                return Err(EvalError::OutOfFuel);
            }
            let cr = self.eval_expr(cond, f - 1, host);
            let ghost s2 = *self;

            proof {

                lemma_hosted_chain(host, s0, s1, s2);

            }
            proof {
                assert forall|o: Oracle| answered(o, s0, s2) implies #[trigger] exec_while(s0.environment@, *cond, body@, fuel as nat, o, s0.pos()) == prepend(made(s0, s1), exec_while(s1.environment@, *cond, body@, f as nat, o, s1.pos())) && eval(s1.environment@, *cond, (f - 1) as nat, o, s1.pos()) == (Out { res: res_val(cr), env: s2.environment@, calls: made(s1, s2) }) by {
                    lemma_chain(o, s0, s1, s2);
                }
            }
            let c = match cr {
                Ok(c) => c,
                Err(x) => {
                    proof {
                        assert forall|o: Oracle| answered(o, s0, *self) implies #[trigger] exec_while(s0.environment@, *cond, body@, fuel as nat, o, s0.pos()) == (Out { res: res_flow(Err::<ControlFlow, EvalError>(x)), env: self.environment@, calls: made(s0, *self) }) by {
                            lemma_chain(o, s0, s1, *self);
                            assert(eval(s1.environment@, *cond, (f - 1) as nat, o, s1.pos()) == (Out { res: res_val(cr), env: s2.environment@, calls: made(s1, s2) }));
                        }
                    }
                    return Err(x);
                },
            };
            if !c.is_truthy() {
                proof {
                    assert forall|o: Oracle| answered(o, s0, *self) implies #[trigger] exec_while(s0.environment@, *cond, body@, fuel as nat, o, s0.pos()) == (Out { res: res_flow(Ok::<ControlFlow, EvalError>(ControlFlow::Normal)), env: self.environment@, calls: made(s0, *self) }) by {
                        lemma_chain(o, s0, s1, *self);
                        assert(eval(s1.environment@, *cond, (f - 1) as nat, o, s1.pos()) == (Out { res: res_val(cr), env: s2.environment@, calls: made(s1, s2) }));
                    }
                }
                return Ok(ControlFlow::Normal);
            }
            let b = self.exec_block(body, f - 1, host);
            let ghost s3 = *self;

            proof {

                lemma_hosted_chain(host, s0, s2, s3);

            }
            proof {
                assert forall|o: Oracle| answered(o, s0, s3) implies #[trigger] exec_while(s0.environment@, *cond, body@, fuel as nat, o, s0.pos()) == prepend(made(s0, s1), exec_while(s1.environment@, *cond, body@, f as nat, o, s1.pos())) && eval(s1.environment@, *cond, (f - 1) as nat, o, s1.pos()) == (Out { res: res_val(cr), env: s2.environment@, calls: made(s1, s2) }) && exec_block(s2.environment@, body@, (f - 1) as nat, o, s2.pos()) == (Out { res: res_flow(b), env: s3.environment@, calls: made(s2, s3) }) by {
                    lemma_chain(o, s2, s3, s3);
                    lemma_chain(o, s0, s2, s3);
                    lemma_chain(o, s1, s2, s3);
                    lemma_chain(o, s0, s1, s3);
                    lemma_chain(o, s0, s1, s2);
                }
            }
            match b {
                Ok(ControlFlow::Normal) => {},
                _ => {
                    proof {
                        assert forall|o: Oracle| answered(o, s0, *self) implies #[trigger] exec_while(s0.environment@, *cond, body@, fuel as nat, o, s0.pos()) == (Out { res: res_flow(b), env: self.environment@, calls: made(s0, *self) }) by {
                            lemma_chain(o, s1, s2, *self);
                            lemma_chain(o, s0, s1, *self);
                            assert(exec_block(s2.environment@, body@, (f - 1) as nat, o, s2.pos()) == (Out { res: res_flow(b), env: s3.environment@, calls: made(s2, s3) }));
                            assert(made(s0, *self) =~= made(s0, s1) + (made(s1, s2) + made(s2, *self)));
                        }
                    }
                    return b;
                },
            }
            f = f - 1;
            proof {
                assert forall|o: Oracle| answered(o, s0, *self) implies #[trigger] exec_while(s0.environment@, *cond, body@, fuel as nat, o, s0.pos()) == prepend(made(s0, *self), exec_while(self.environment@, *cond, body@, f as nat, o, self.pos())) by {
                    lemma_chain(o, s1, s2, *self);
                    lemma_chain(o, s0, s1, *self);
                    assert(exec_block(s2.environment@, body@, f as nat, o, s2.pos()) == (Out { res: res_flow(b), env: s3.environment@, calls: made(s2, s3) }));
                    let w = exec_while(self.environment@, *cond, body@, f as nat, o, self.pos());
                    assert(made(s0, s1) + (made(s1, s2) + made(s2, *self) + w.calls) =~= made(s0, *self) + w.calls);
                }
            }
        }
    }

    /// Runs the body of a `for` loop once per item (see `exec_for`).
    fn exec_for<H: Fn(HostCall) -> Value>(&mut self, var: &String, items: &Vec<Value>, body: &Vec<Stmt>, fuel: u64, host: &H) -> (r: Result<ControlFlow, EvalError>)
        requires
            host_ready(host),
            old(self).wf(),
        ensures
            step_ok(*old(self), *final(self)),
            hosted(host, *old(self), *final(self)),
            forall|o: Oracle| answered(o, *old(self), *final(self)) ==> #[trigger] exec_for(old(self).environment@, var@, view_values(items@), 0, body@, fuel as nat, o, old(self).pos()) == (Out { res: res_flow(r), env: final(self).environment@, calls: made(*old(self), *final(self)) }),
        decreases fuel, 0nat,
    {
        proof {
            lemma_extends_refl(*self);
        }
        if fuel == 0 {
            return Err(EvalError::OutOfFuel);
        }
        let ghost s0 = *self;
        let ghost iv = view_values(items@);
        let mut i: usize = 0;
        proof {
            assert forall|o: Oracle| answered(o, s0, *self) implies #[trigger] exec_for(s0.environment@, var@, iv, 0, body@, fuel as nat, o, s0.pos()) == prepend(made(s0, *self), exec_for(self.environment@, var@, iv, i as nat, body@, fuel as nat, o, self.pos())) by {
                let w = exec_for(self.environment@, var@, iv, i as nat, body@, fuel as nat, o, self.pos());
                assert(Seq::<Request>::empty() + w.calls =~= w.calls);
            }
        }
        while i < items.len()
            invariant
                host_ready(host),
                fuel > 0,
                i <= items.len(),
                iv == view_values(items@),
                step_ok(s0, *self),
                s0 == *old(self),
                hosted(host, s0, *self),
                s0.wf(),
                forall|o: Oracle| answered(o, s0, *self) ==> #[trigger] exec_for(s0.environment@, var@, iv, 0, body@, fuel as nat, o, s0.pos()) == prepend(made(s0, *self), exec_for(self.environment@, var@, iv, i as nat, body@, fuel as nat, o, self.pos())),
            decreases items.len() - i,
        {
            let ghost s1 = *self;
            let k = copy_str(var);
            let v = items[i].copy();
            let mut one: Vec<(String, Value)> = Vec::new();
            one.push((k, v));
            proof {
                lemma_view_one(one@[0].0, one@[0].1);
                assert(one@ =~= seq![one@[0]]);
                assert(iv[i as int] == view_value(items@[i as int]));
            }
            self.environment.push_bindings(one);
            let ghost s2 = *self;

            proof {

                lemma_hosted_chain(host, s0, s1, s2);

            }
            assert(s2.environment@ == s1.environment@.push(seq![(var@, iv[i as int])]));
            let b = self.exec_block(body, fuel - 1, host);
            let ghost s3 = *self;

            proof {

                lemma_hosted_chain(host, s0, s2, s3);

            }
            self.environment.pop_scope();
            proof {
                assert(made(s1, *self) == made(s2, s3));
                assert forall|o: Oracle| answered(o, s0, *self) implies #[trigger] exec_for(s0.environment@, var@, iv, 0, body@, fuel as nat, o, s0.pos()) == prepend(made(s0, s1), exec_for(s1.environment@, var@, iv, i as nat, body@, fuel as nat, o, s1.pos())) && exec_block(s2.environment@, body@, (fuel - 1) as nat, o, s2.pos()) == (Out { res: res_flow(b), env: s3.environment@, calls: made(s2, s3) }) by {
                    lemma_chain(o, s0, s1, *self);
                    assert(answered(o, s2, s3));
                }
            }
            match b {
                Ok(ControlFlow::Normal) => {},
                _ => {
                    proof {
                        assert forall|o: Oracle| answered(o, s0, *self) implies #[trigger] exec_for(s0.environment@, var@, iv, 0, body@, fuel as nat, o, s0.pos()) == (Out { res: res_flow(b), env: self.environment@, calls: made(s0, *self) }) by {
                            lemma_chain(o, s0, s1, *self);
                            assert(exec_block(s2.environment@, body@, (fuel - 1) as nat, o, s2.pos()) == (Out { res: res_flow(b), env: s3.environment@, calls: made(s2, s3) }));
                        }
                    }
                    return b;
                },
            }
            i = i + 1;
            proof {
                assert forall|o: Oracle| answered(o, s0, *self) implies #[trigger] exec_for(s0.environment@, var@, iv, 0, body@, fuel as nat, o, s0.pos()) == prepend(made(s0, *self), exec_for(self.environment@, var@, iv, i as nat, body@, fuel as nat, o, self.pos())) by {
                    lemma_chain(o, s0, s1, *self);
                    assert(exec_for(s0.environment@, var@, iv, 0, body@, fuel as nat, o, s0.pos()) == prepend(made(s0, s1), exec_for(s1.environment@, var@, iv, (i - 1) as nat, body@, fuel as nat, o, s1.pos())));
                    assert(exec_block(s2.environment@, body@, (fuel - 1) as nat, o, s2.pos()) == (Out { res: res_flow(b), env: s3.environment@, calls: made(s2, s3) }));
                    lemma_prepend_assoc(made(s0, s1), made(s1, *self), exec_for(self.environment@, var@, iv, i as nat, body@, fuel as nat, o, self.pos()));
                }
            }
        }
        proof {
            assert forall|o: Oracle| answered(o, s0, *self) implies #[trigger] exec_for(s0.environment@, var@, iv, 0, body@, fuel as nat, o, s0.pos()) == (Out { res: res_flow(Ok::<ControlFlow, EvalError>(ControlFlow::Normal)), env: self.environment@, calls: made(s0, *self) }) by {
                assert(exec_for(s0.environment@, var@, iv, 0, body@, fuel as nat, o, s0.pos()) == prepend(made(s0, *self), exec_for(self.environment@, var@, iv, i as nat, body@, fuel as nat, o, self.pos())));
                assert(made(s0, *self) + Seq::<Request>::empty() =~= made(s0, *self));
            }
        }
        Ok(ControlFlow::Normal)
    }

    /// Runs a statement (see `exec_stmt`).
    fn exec_stmt<H: Fn(HostCall) -> Value>(&mut self, s: &Stmt, fuel: u64, host: &H) -> (r: Result<ControlFlow, EvalError>)
        requires
            host_ready(host),
            old(self).wf(),
        ensures
            step_ok(*old(self), *final(self)),
            hosted(host, *old(self), *final(self)),
            forall|o: Oracle| answered(o, *old(self), *final(self)) ==> #[trigger] exec_stmt(old(self).environment@, *s, fuel as nat, o, old(self).pos()) == (Out { res: res_flow(r), env: final(self).environment@, calls: made(*old(self), *final(self)) }),
        decreases fuel, 1nat,
    {
        proof {
            lemma_extends_refl(*self);
        }
        if fuel == 0 {
            return Err(EvalError::OutOfFuel);
        }
        match s {
            Stmt::Import { .. } => Ok(ControlFlow::Normal),
            Stmt::Let { .. } => self.exec_let(s, fuel, host),
            Stmt::Assign { .. } => self.exec_assign(s, fuel, host),
            Stmt::If { .. } => self.exec_if(s, fuel, host),
            Stmt::While { condition, body } => {
                let ghost s0 = *self;
                let r = self.exec_while(condition, body, fuel - 1, host);
                proof {
                    assert forall|o: Oracle| answered(o, s0, *self) implies #[trigger] exec_stmt(s0.environment@, *s, fuel as nat, o, s0.pos()) == (Out { res: res_flow(r), env: self.environment@, calls: made(s0, *self) }) by {
                        assert(exec_while(s0.environment@, *condition, body@, (fuel - 1) as nat, o, s0.pos()) == (Out { res: res_flow(r), env: self.environment@, calls: made(s0, *self) }));
                    }
                }
                r
            },
            Stmt::For { .. } => self.exec_for_stmt(s, fuel, host),
            Stmt::Return(..) => self.exec_return(s, fuel, host),
            Stmt::FnDecl { .. } => self.exec_fn_decl(s, fuel),
            Stmt::Expr(..) => self.exec_expr_stmt(s, fuel, host),
        }
    }

    fn exec_fn_decl(&mut self, s: &Stmt, fuel: u64) -> (r: Result<ControlFlow, EvalError>)
        requires
            fuel > 0,
            s is FnDecl,
            old(self).wf(),
        ensures
            step_ok(*old(self), *final(self)),
            final(self).pos() == old(self).pos(),
            forall|o: Oracle| answered(o, *old(self), *final(self)) ==> #[trigger] exec_stmt(old(self).environment@, *s, fuel as nat, o, old(self).pos()) == (Out { res: res_flow(r), env: final(self).environment@, calls: made(*old(self), *final(self)) }),
    {
        proof {
            lemma_extends_refl(*self);
        }
        match s {
            Stmt::FnDecl { name, params, body, .. } => {
                let names = param_names_exec(params);
                let f = Value::Function { params: names, body: crate::value::share_body(body) };
                assert(f@ == Val::Func(param_names(params@), (*body)@));
                self.environment.define(copy_str(name), f);
                Ok(ControlFlow::Normal)
            },
            _ => Err(EvalError::OutOfFuel),
        }
    }

    fn exec_let<H: Fn(HostCall) -> Value>(&mut self, s: &Stmt, fuel: u64, host: &H) -> (r: Result<ControlFlow, EvalError>)
        requires
            fuel > 0,
            s is Let,
            host_ready(host),
            old(self).wf(),
        ensures
            step_ok(*old(self), *final(self)),
            hosted(host, *old(self), *final(self)),
            forall|o: Oracle| answered(o, *old(self), *final(self)) ==> #[trigger] exec_stmt(old(self).environment@, *s, fuel as nat, o, old(self).pos()) == (Out { res: res_flow(r), env: final(self).environment@, calls: made(*old(self), *final(self)) }),
        decreases fuel, 0nat,
    {
        let ghost s0 = *self;
        match s {
            Stmt::Let { name, init, .. } => {
                let v = match self.eval_expr(init, fuel - 1, host) {
                    Ok(v) => v,
                    Err(x) => {
                proof {
                    assert forall|o: Oracle| answered(o, s0, *self) implies #[trigger] exec_stmt(s0.environment@, *s, fuel as nat, o, s0.pos()) == (Out::<Flow> { res: Err(view_err(x)), env: self.environment@, calls: made(s0, *self) }) by {
                        assert(eval(s0.environment@, *init, (fuel - 1) as nat, o, s0.pos()) == (Out::<Val> { res: Err(view_err(x)), env: self.environment@, calls: made(s0, *self) }));
        }
                }
                        return Err(x);
                    },
                };
                let ghost vv = v@;
                let ghost s1 = *self;
                self.environment.define(copy_str(name), v);
                proof {
                    assert forall|o: Oracle| answered(o, s0, *self) implies #[trigger] exec_stmt(s0.environment@, *s, fuel as nat, o, s0.pos()) == (Out::<Flow> { res: Ok(Flow::Normal), env: self.environment@, calls: made(s0, *self) }) by {
                        assert(eval(s0.environment@, *init, (fuel - 1) as nat, o, s0.pos()) == (Out::<Val> { res: Ok(vv), env: s1.environment@, calls: made(s0, s1) }));
        }
                }
                Ok(ControlFlow::Normal)
            },
            _ => Err(EvalError::OutOfFuel),
        }
    }

    fn exec_assign<H: Fn(HostCall) -> Value>(&mut self, s: &Stmt, fuel: u64, host: &H) -> (r: Result<ControlFlow, EvalError>)
        requires
            fuel > 0,
            s is Assign,
            host_ready(host),
            old(self).wf(),
        ensures
            step_ok(*old(self), *final(self)),
            hosted(host, *old(self), *final(self)),
            forall|o: Oracle| answered(o, *old(self), *final(self)) ==> #[trigger] exec_stmt(old(self).environment@, *s, fuel as nat, o, old(self).pos()) == (Out { res: res_flow(r), env: final(self).environment@, calls: made(*old(self), *final(self)) }),
        decreases fuel, 0nat,
    {
        let ghost s0 = *self;
        match s {
            Stmt::Assign { name, value } => {
                let v = match self.eval_expr(value, fuel - 1, host) {
                    Ok(v) => v,
                    Err(x) => {
                proof {
                    assert forall|o: Oracle| answered(o, s0, *self) implies #[trigger] exec_stmt(s0.environment@, *s, fuel as nat, o, s0.pos()) == (Out::<Flow> { res: Err(view_err(x)), env: self.environment@, calls: made(s0, *self) }) by {
                        assert(eval(s0.environment@, *value, (fuel - 1) as nat, o, s0.pos()) == (Out::<Val> { res: Err(view_err(x)), env: self.environment@, calls: made(s0, *self) }));
        }
                }
                        return Err(x);
                    },
                };
                let ghost vv = v@;
                let ghost s1 = *self;
                let ok = self.environment.assign(name.as_str(), v);
                let r = if ok {
                    Ok(ControlFlow::Normal)
                } else {
                    Err(EvalError::Undefined(copy_str(name)))
                };
                proof {
                    assert forall|o: Oracle| answered(o, s0, *self) implies #[trigger] exec_stmt(s0.environment@, *s, fuel as nat, o, s0.pos()) == (Out::<Flow> { res: res_flow(r), env: self.environment@, calls: made(s0, *self) }) by {
                        assert(eval(s0.environment@, *value, (fuel - 1) as nat, o, s0.pos()) == (Out::<Val> { res: Ok(vv), env: s1.environment@, calls: made(s0, s1) }));
        }
                }
                r
            },
            _ => Err(EvalError::OutOfFuel),
        }
    }

    fn exec_return<H: Fn(HostCall) -> Value>(&mut self, s: &Stmt, fuel: u64, host: &H) -> (r: Result<ControlFlow, EvalError>)
        requires
            fuel > 0,
            s is Return,
            host_ready(host),
            old(self).wf(),
        ensures
            step_ok(*old(self), *final(self)),
            hosted(host, *old(self), *final(self)),
            forall|o: Oracle| answered(o, *old(self), *final(self)) ==> #[trigger] exec_stmt(old(self).environment@, *s, fuel as nat, o, old(self).pos()) == (Out { res: res_flow(r), env: final(self).environment@, calls: made(*old(self), *final(self)) }),
        decreases fuel, 0nat,
    {
        proof {
            lemma_extends_refl(*self);
        }
        let ghost s0 = *self;
        let value = match s {
            Stmt::Return(v) => v,
            _ => {
                return Err(EvalError::OutOfFuel);
            },
        };
        match value {
            None => Ok(ControlFlow::Return(Value::Null)),
            Some(x0) => {
                let r = self.eval_expr(x0, fuel - 1, host);
                let res = match r {
                    Ok(v) => Ok(ControlFlow::Return(v)),
                    Err(x) => Err(x),
                };
                proof {
                    assert forall|o: Oracle| answered(o, s0, *self) implies #[trigger] exec_stmt(s0.environment@, *s, fuel as nat, o, s0.pos()) == (Out { res: res_flow(res), env: self.environment@, calls: made(s0, *self) }) by {
                        assert(eval(s0.environment@, *x0, (fuel - 1) as nat, o, s0.pos()) == (Out { res: res_val(r), env: self.environment@, calls: made(s0, *self) }));
                    }
                }
                res
            },
        }
    }

    fn exec_expr_stmt<H: Fn(HostCall) -> Value>(&mut self, s: &Stmt, fuel: u64, host: &H) -> (r: Result<ControlFlow, EvalError>)
        requires
            fuel > 0,
            s is Expr,
            host_ready(host),
            old(self).wf(),
        ensures
            step_ok(*old(self), *final(self)),
            hosted(host, *old(self), *final(self)),
            forall|o: Oracle| answered(o, *old(self), *final(self)) ==> #[trigger] exec_stmt(old(self).environment@, *s, fuel as nat, o, old(self).pos()) == (Out { res: res_flow(r), env: final(self).environment@, calls: made(*old(self), *final(self)) }),
        decreases fuel, 0nat,
    {
        let ghost s0 = *self;
        match s {
            Stmt::Expr(x0) => {
                let v = match self.eval_expr(x0, fuel - 1, host) {
                    Ok(v) => v,
                    Err(x) => {
                proof {
                    assert forall|o: Oracle| answered(o, s0, *self) implies #[trigger] exec_stmt(s0.environment@, *s, fuel as nat, o, s0.pos()) == (Out::<Flow> { res: Err(view_err(x)), env: self.environment@, calls: made(s0, *self) }) by {
                        assert(eval(s0.environment@, *x0, (fuel - 1) as nat, o, s0.pos()) == (Out::<Val> { res: Err(view_err(x)), env: self.environment@, calls: made(s0, *self) }));
        }
                }
                        return Err(x);
                    },
                };
                let ghost vv = v@;
                proof {
                    assert forall|o: Oracle| answered(o, s0, *self) implies #[trigger] exec_stmt(s0.environment@, *s, fuel as nat, o, s0.pos()) == (Out::<Flow> { res: Ok(Flow::Normal), env: self.environment@, calls: made(s0, *self) }) by {
                        assert(eval(s0.environment@, *x0, (fuel - 1) as nat, o, s0.pos()) == (Out::<Val> { res: Ok(vv), env: self.environment@, calls: made(s0, *self) }));
        }
                }
                Ok(ControlFlow::Normal)
            },
            _ => Err(EvalError::OutOfFuel),
        }
    }

    fn exec_if<H: Fn(HostCall) -> Value>(&mut self, s: &Stmt, fuel: u64, host: &H) -> (r: Result<ControlFlow, EvalError>)
        requires
            fuel > 0,
            s is If,
            host_ready(host),
            old(self).wf(),
        ensures
            step_ok(*old(self), *final(self)),
            hosted(host, *old(self), *final(self)),
            forall|o: Oracle| answered(o, *old(self), *final(self)) ==> #[trigger] exec_stmt(old(self).environment@, *s, fuel as nat, o, old(self).pos()) == (Out { res: res_flow(r), env: final(self).environment@, calls: made(*old(self), *final(self)) }),
        decreases fuel, 0nat,
    {
        let ghost s0 = *self;
        match s {
            Stmt::If { condition, then_branch, else_branch } => {
                let c = match self.eval_expr(condition, fuel - 1, host) {
                    Ok(v) => v,
                    Err(x) => {
                proof {
                    assert forall|o: Oracle| answered(o, s0, *self) implies #[trigger] exec_stmt(s0.environment@, *s, fuel as nat, o, s0.pos()) == (Out::<Flow> { res: Err(view_err(x)), env: self.environment@, calls: made(s0, *self) }) by {
                        assert(eval(s0.environment@, *condition, (fuel - 1) as nat, o, s0.pos()) == (Out::<Val> { res: Err(view_err(x)), env: self.environment@, calls: made(s0, *self) }));
        }
                }
                        return Err(x);
                    },
                };
                let ghost s1 = *self;
                let ghost cv = c@;
                if c.is_truthy() {
                    let r = self.exec_block(then_branch, fuel - 1, host);
                    proof {
                        assert forall|o: Oracle| answered(o, s0, *self) implies #[trigger] exec_stmt(s0.environment@, *s, fuel as nat, o, s0.pos()) == (Out::<Flow> { res: res_flow(r), env: self.environment@, calls: made(s0, *self) }) by {
                        lemma_chain(o, s0, s1, *self);
                        assert(eval(s0.environment@, *condition, (fuel - 1) as nat, o, s0.pos()) == (Out::<Val> { res: Ok(cv), env: s1.environment@, calls: made(s0, s1) }));
                        assert(exec_block(s1.environment@, then_branch@, (fuel - 1) as nat, o, s1.pos()) == (Out { res: res_flow(r), env: self.environment@, calls: made(s1, *self) }));
        }
                    }
                    r
                } else {
                    match else_branch {
                        Some(eb) => {
                            let r = self.exec_block(eb, fuel - 1, host);
                            proof {
                                assert forall|o: Oracle| answered(o, s0, *self) implies #[trigger] exec_stmt(s0.environment@, *s, fuel as nat, o, s0.pos()) == (Out::<Flow> { res: res_flow(r), env: self.environment@, calls: made(s0, *self) }) by {
                        lemma_chain(o, s0, s1, *self);
                        assert(eval(s0.environment@, *condition, (fuel - 1) as nat, o, s0.pos()) == (Out::<Val> { res: Ok(cv), env: s1.environment@, calls: made(s0, s1) }));
                        assert(exec_block(s1.environment@, eb@, (fuel - 1) as nat, o, s1.pos()) == (Out { res: res_flow(r), env: self.environment@, calls: made(s1, *self) }));
        }
                            }
                            r
                        },
                        None => {
                            proof {
                                assert forall|o: Oracle| answered(o, s0, *self) implies #[trigger] exec_stmt(s0.environment@, *s, fuel as nat, o, s0.pos()) == (Out::<Flow> { res: Ok(Flow::Normal), env: self.environment@, calls: made(s0, *self) }) by {
                        assert(eval(s0.environment@, *condition, (fuel - 1) as nat, o, s0.pos()) == (Out::<Val> { res: Ok(cv), env: s1.environment@, calls: made(s0, s1) }));
        }
                            }
                            Ok(ControlFlow::Normal)
                        },
                    }
                }
            },
            _ => Err(EvalError::OutOfFuel),
        }
    }

    fn exec_for_stmt<H: Fn(HostCall) -> Value>(&mut self, s: &Stmt, fuel: u64, host: &H) -> (r: Result<ControlFlow, EvalError>)
        requires
            fuel > 0,
            s is For,
            host_ready(host),
            old(self).wf(),
        ensures
            step_ok(*old(self), *final(self)),
            hosted(host, *old(self), *final(self)),
            forall|o: Oracle| answered(o, *old(self), *final(self)) ==> #[trigger] exec_stmt(old(self).environment@, *s, fuel as nat, o, old(self).pos()) == (Out { res: res_flow(r), env: final(self).environment@, calls: made(*old(self), *final(self)) }),
        decreases fuel, 0nat,
    {
        let ghost s0 = *self;
        match s {
            Stmt::For { var, iterable, body } => {
                let it = match self.eval_expr(iterable, fuel - 1, host) {
                    Ok(v) => v,
                    Err(x) => {
                proof {
                    assert forall|o: Oracle| answered(o, s0, *self) implies #[trigger] exec_stmt(s0.environment@, *s, fuel as nat, o, s0.pos()) == (Out::<Flow> { res: Err(view_err(x)), env: self.environment@, calls: made(s0, *self) }) by {
                        assert(eval(s0.environment@, *iterable, (fuel - 1) as nat, o, s0.pos()) == (Out::<Val> { res: Err(view_err(x)), env: self.environment@, calls: made(s0, *self) }));
        }
                }
                        return Err(x);
                    },
                };
                let ghost s1 = *self;
                let ghost itv = it@;
                match it {
                    Value::List(items) => {
                        let r = self.exec_for(var, &items, body, fuel - 1, host);
                        proof {
                            assert forall|o: Oracle| answered(o, s0, *self) implies #[trigger] exec_stmt(s0.environment@, *s, fuel as nat, o, s0.pos()) == (Out::<Flow> { res: res_flow(r), env: self.environment@, calls: made(s0, *self) }) by {
                        lemma_chain(o, s0, s1, *self);
                        assert(eval(s0.environment@, *iterable, (fuel - 1) as nat, o, s0.pos()) == (Out::<Val> { res: Ok(itv), env: s1.environment@, calls: made(s0, s1) }));
                        assert(exec_for(s1.environment@, var@, view_values(items@), 0, body@, (fuel - 1) as nat, o, s1.pos()) == (Out { res: res_flow(r), env: self.environment@, calls: made(s1, *self) }));
        }
                        }
                        r
                    },
                    _ => {
                        proof {
                            assert forall|o: Oracle| answered(o, s0, *self) implies #[trigger] exec_stmt(s0.environment@, *s, fuel as nat, o, s0.pos()) == (Out::<Flow> { res: Err(Fault::NotIterable), env: self.environment@, calls: made(s0, *self) }) by {
                        assert(eval(s0.environment@, *iterable, (fuel - 1) as nat, o, s0.pos()) == (Out::<Val> { res: Ok(itv), env: s1.environment@, calls: made(s0, s1) }));
        }
                        }
                        Err(EvalError::NotIterable)
                    },
                }
            },
            _ => Err(EvalError::OutOfFuel),
        }
    }

}

/// The step limit of a run: a run that has not ended after this many nested
/// steps stops with `OutOfFuel`.
pub const FUEL: u64 = 0xffff_ffff_ffff_ffffu64;

/// The globals that every program starts with, after those it is given.
pub open spec fn with_builtins(globals: Scope) -> Scope {
    let g1 = insert_entry(globals, "print"@, Val::Builtin(Builtin::Print));
    let g2 = insert_entry(g1, "render"@, Val::Builtin(Builtin::Render));
    let g3 = insert_entry(g2, "read_file"@, Val::Builtin(Builtin::ReadFile));
    let g4 = insert_entry(g3, "len"@, Val::Builtin(Builtin::Len));
    insert_entry(g4, "db"@, Val::Dict(db_entries()))
}

/// The functions under `db`.
pub open spec fn db_entries() -> Scope {
    seq![
        ("connect"@, Val::Builtin(Builtin::DbConnect)),
        ("query"@, Val::Builtin(Builtin::DbQuery)),
        ("execute"@, Val::Builtin(Builtin::DbExecute)),
    ]
}

fn db_dict() -> (r: Value)
    ensures
        r@ == Val::Dict(db_entries()),
{
    let mut m: Vec<(String, Value)> = Vec::new();
    m.push((crate::text::from_str("connect"), Value::Builtin(Builtin::DbConnect)));
    m.push((crate::text::from_str("query"), Value::Builtin(Builtin::DbQuery)));
    m.push((crate::text::from_str("execute"), Value::Builtin(Builtin::DbExecute)));
    proof {
        crate::model::lemma_view_entries_ext(m@, db_entries());
    }
    Value::Dict(m)
}

impl Interpreter {
    /// An interpreter whose globals are the builtins.
    pub fn new() -> (r: Interpreter)
        ensures
            r.wf(),
            r.environment@ == seq![with_builtins(Seq::empty())],
            r.calls@ == Seq::<Request>::empty(),
            r.replies@ == Seq::<Val>::empty(),
    {
        let r = Interpreter::with_env(Vec::new());
        assert(view_entries(Seq::<(String, Value)>::empty()) =~= Seq::<(Seq<char>, Val)>::empty());
        r
    }

    /// An interpreter whose globals are the given bindings, then the builtins
    /// (which replace bindings of the same names).
    pub fn with_env(globals: Vec<(String, Value)>) -> (r: Interpreter)
        ensures
            r.wf(),
            r.environment@ == seq![with_builtins(view_entries(globals@))],
            r.calls@ == Seq::<Request>::empty(),
            r.replies@ == Seq::<Val>::empty(),
    {
        let mut environment = Environment::with_globals(globals);
        environment.define(crate::text::from_str("print"), Value::Builtin(Builtin::Print));
        environment.define(crate::text::from_str("render"), Value::Builtin(Builtin::Render));
        environment.define(crate::text::from_str("read_file"), Value::Builtin(Builtin::ReadFile));
        environment.define(crate::text::from_str("len"), Value::Builtin(Builtin::Len));
        environment.define(crate::text::from_str("db"), db_dict());
        Interpreter {
            environment,
            calls: Ghost(Seq::empty()),
            replies: Ghost(Seq::empty()),
            sent: Ghost(Seq::empty()),
            got: Ghost(Seq::empty()),
        }
    }

    /// Binds `name` to `value` among the globals.
    pub fn define_global(&mut self, name: String, value: Value)
        requires
            old(self).wf(),
        ensures
            final(self).wf(),
            final(self).environment@ == old(self).environment@.update(0, insert_entry(old(self).environment@[0], name@, value@)),
            final(self).calls == old(self).calls,
            final(self).replies == old(self).replies,
    {
        let ghost before = self.environment@;
        let ghost nv = name@;
        let ghost vv = value@;
        dict_insert(&mut self.environment.scopes[0], name, value);
        assert(self.environment@ =~= before.update(0, insert_entry(before[0], nv, vv)));
    }

    /// Runs a program at the top level, in the current scopes. Its value is that of
    /// the first top-level `return`, or null (see `run_program`).
    pub fn interpret<H: Fn(HostCall) -> Value>(&mut self, statements: &Vec<Stmt>, host: &H) -> (r: Result<Value, EvalError>)
        requires
            host_ready(host),
            old(self).wf(),
        ensures
            step_ok(*old(self), *final(self)),
            hosted(host, *old(self), *final(self)),
            forall|o: Oracle| answered(o, *old(self), *final(self)) ==> #[trigger] run_program(old(self).environment@, statements@, FUEL as nat, o, old(self).pos()) == (Out { res: res_val(r), env: final(self).environment@, calls: made(*old(self), *final(self)) }),
    {
        let ghost s0 = *self;
        let r = self.exec_stmts(statements, FUEL, host);
        let res = match r {
            Ok(ControlFlow::Return(v)) => Ok(v),
            Ok(ControlFlow::Normal) => Ok(Value::Null),
            Err(x) => Err(x),
        };
        proof {
            assert forall|o: Oracle| answered(o, s0, *self) implies #[trigger] run_program(s0.environment@, statements@, FUEL as nat, o, s0.pos()) == (Out { res: res_val(res), env: self.environment@, calls: made(s0, *self) }) by {
                assert(exec_stmts(s0.environment@, statements@, 0, FUEL as nat, o, s0.pos()) == (Out { res: res_flow(r), env: self.environment@, calls: made(s0, *self) }));
            }
        }
        res
    }
}

/// The scope of a call: each parameter bound to its argument, in order.
fn bind_params_exec(params: &Vec<String>, args: &Vec<Value>) -> (r: Vec<(String, Value)>)
    requires
        params.len() == args.len(),
    ensures
        view_entries(r@) == bind_params(crate::model::string_views(params@), view_values(args@)),
{
    let ghost pv = crate::model::string_views(params@);
    let ghost argv = view_values(args@);
    let mut scope: Vec<(String, Value)> = Vec::new();
    let mut i: usize = 0;
    assert(pv.subrange(0, 0).len() == 0);
    while i < params.len()
        invariant
            params.len() == args.len(),
            pv == crate::model::string_views(params@),
            argv == view_values(args@),
            i <= params.len(),
            view_entries(scope@) == bind_params(pv.subrange(0, i as int), argv.subrange(0, i as int)),
        decreases params.len() - i,
    {
        proof {
            lemma_bind_step(pv, argv, i as int);
        }
        dict_insert(&mut scope, copy_str(&params[i]), args[i].copy());
        i = i + 1;
    }
    assert(pv.subrange(0, params.len() as int) =~= pv);
    assert(argv.subrange(0, args.len() as int) =~= argv);
    scope
}

/// `object[index]` on evaluated operands (see `index_value`).
fn index_exec(obj: &Value, idx: &Value) -> (r: Result<Value, EvalError>)
    ensures
        res_val(r) == index_value(obj@, idx@),
{
    match (obj, idx) {
        (Value::List(l), Value::Int(i)) => {
            let n = l.len();
            assert(view_values(l@).len() == n);
            if *i < 0 {
                let j: i128 = n as i128 + *i as i128;
                if 0 <= j && j < n as i128 {
                    assert(view_values(l@)[j as int] == view_value(l@[j as int]));
                    Ok(l[j as usize].copy())
                } else {
                    Ok(Value::Null)
                }
            } else if (*i as u64) < (n as u64) {
                assert(view_values(l@)[*i as int] == view_value(l@[*i as int]));
                Ok(l[*i as usize].copy())
            } else {
                Ok(Value::Null)
            }
        },
        (Value::Dict(m), Value::String(k)) => match dict_get(m, k.as_str()) {
            Some(v) => Ok(v),
            None => Ok(Value::Null),
        },
        _ => Err(EvalError::InvalidIndex),
    }
}

} // verus!
