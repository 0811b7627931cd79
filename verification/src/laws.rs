//! Properties that hold across the library's operations.

use crate::ast::{expr_eq, exprs_eq, pairs_eq, stmt_eq, stmts_eq, BinaryOp, Expr, Stmt};
use crate::database::{cell_value, row_entries, SqlCell};
use crate::server::{pairs_dict, request_object, response_for, BodyM};
use crate::environment::{env_assign, env_define, env_get, Env, Scope};
use crate::semantics::{
    apply_binary,
    bind_params, call_body, call_value, eval, eval_list, eval_pairs, eval_parts, exec_block,
    exec_for, exec_stmt, exec_stmts, exec_while, param_names, run_program, Fault, Flow, Oracle, Out,
    Request,
};
use crate::model::Val;
use crate::template::{render_entries, replace_all, spaced_placeholder, tight_placeholder};
use crate::text::{seq_order, Order};
use crate::value::{
    display, find_key, float_is_nan, int_text, nat_text, insert_entry, keys_distinct, lemma_find_key,
    lemma_insert_distinct, lookup, spec_compare, truthy, val_eq, ArithError,
};
use vstd::prelude::*;

verus! {

/// The reverse of an order.
pub open spec fn reversed(o: Order) -> Order {
    match o {
        Order::Less => Order::Greater,
        Order::Equal => Order::Equal,
        Order::Greater => Order::Less,
    }
}

/// Reading a key of a dictionary after writing it gives what was written, and
/// the other keys keep their values.
pub proof fn law_dict_read_after_write(m: Seq<(Seq<char>, Val)>, key: Seq<char>, v: Val, other: Seq<char>)
    ensures
        lookup(insert_entry(m, key, v), key) == Some(v),
        other != key ==> lookup(insert_entry(m, key, v), other) == lookup(m, other),
{
    lemma_find_key(m, key);
    lemma_find_key(m, other);
    let m2 = insert_entry(m, key, v);
    lemma_find_key(m2, key);
    lemma_find_key(m2, other);
    match find_key(m, key) {
        Some(i) => {
            assert(m2[i as int].0 == key);
            if find_key(m2, key) != Some(i) {
                assert(m2[i as int].0 == key);
            }
            if other != key {
                match find_key(m, other) {
                    Some(j) => {
                        assert(m2[j as int] == m[j as int]);
                        assert(find_key(m2, other) == Some(j)) by {
                            if find_key(m2, other) is None {
                                assert(m2[j as int].0 == other);
                            } else {
                                let k = find_key(m2, other).unwrap();
                                if k < j {
                                    assert(m2[k as int].0 == other);
                                    assert(m[k as int].0 == m2[k as int].0 || k == i);
                                } else if k > j {
                                    assert(m2[j as int].0 == other);
                                }
                            }
                        }
                    },
                    None => {
                        assert(forall|j: int| 0 <= j < m2.len() ==> m2[j].0 != other);
                    },
                }
            }
        },
        None => {
            assert(m2 == m.push((key, v)));
            assert(m2[m.len() as int].0 == key);
            if other != key {
                match find_key(m, other) {
                    Some(j) => {
                        assert(m2[j as int] == m[j as int]);
                        assert(find_key(m2, other) == Some(j)) by {
                            if find_key(m2, other) is None {
                                assert(m2[j as int].0 == other);
                            } else {
                                let k = find_key(m2, other).unwrap();
                                if k < j {
                                    assert(m2[k as int].0 == other);
                                } else if k > j {
                                    assert(m2[j as int].0 == other);
                                }
                            }
                        }
                    },
                    None => {
                        assert(forall|j: int| 0 <= j < m2.len() ==> m2[j].0 != other);
                    },
                }
            }
        },
    }
}

/// A variable defined in the innermost scope is what the name then gives; the
/// other names give what they gave.
pub proof fn law_define_then_get(env: Env, name: Seq<char>, v: Val, other: Seq<char>)
    requires
        env.len() > 0,
    ensures
        env_get(env_define(env, name, v), name) == Some(v),
        other != name ==> env_get(env_define(env, name, v), other) == env_get(env, other),
        env_define(env, name, v).len() == env.len(),
{
    law_dict_read_after_write(env.last(), name, v, other);
    let e2 = env_define(env, name, v);
    assert(e2.drop_last() =~= env.drop_last());
}

/// Assigning to a name fails exactly when no scope binds it; otherwise the
/// name then gives the assigned value, and the scopes stay as many.
pub proof fn law_assign_then_get(env: Env, name: Seq<char>, v: Val)
    ensures
        env_assign(env, name, v) is None <==> env_get(env, name) is None,
        env_assign(env, name, v) matches Some(e) ==> env_get(e, name) == Some(v) && e.len() == env.len(),
    decreases env.len(),
{
    if env.len() > 0 {
        lemma_find_key(env.last(), name);
        law_assign_then_get(env.drop_last(), name, v);
        if find_key(env.last(), name) is Some {
            law_dict_read_after_write(env.last(), name, v, name);
            let e = env_assign(env, name, v).unwrap();
            assert(e.last() == insert_entry(env.last(), name, v));
        } else {
            assert(lookup(env.last(), name) is None);
            match env_assign(env.drop_last(), name, v) {
                Some(e0) => {
                    let e = e0.push(env.last());
                    assert(e.drop_last() =~= e0);
                    assert(e.last() == env.last());
                },
                None => {},
            }
        }
    }
}

proof fn lemma_seq_order_reversed(a: Seq<char>, b: Seq<char>)
    ensures
        seq_order(b, a) == reversed(seq_order(a, b)),
    decreases a.len(),
{
    if a.len() > 0 && b.len() > 0 && (a[0] as u32) == (b[0] as u32) {
        lemma_seq_order_reversed(a.drop_first(), b.drop_first());
    }
}

/// Comparing `b` with `a` gives the reverse of comparing `a` with `b`.
pub proof fn law_compare_reversed(a: Val, b: Val)
    ensures
        match (spec_compare(a, b), spec_compare(b, a)) {
            (Ok(Some(x)), Ok(Some(y))) => y == reversed(x),
            (Ok(None), Ok(None)) => true,
            (Err(ArithError::NeedsFloat), Err(ArithError::NeedsFloat)) => true,
            _ => false,
        },
{
    match (a, b) {
        (Val::Str(x), Val::Str(y)) => lemma_seq_order_reversed(x, y),
        _ => {},
    }
}

proof fn lemma_replace_without_brace(s: Seq<char>, from: Seq<char>, to: Seq<char>)
    requires
        from.len() > 0,
        from[0] == '{',
        forall|i: int| 0 <= i < s.len() ==> s[i] != '{',
    ensures
        replace_all(s, from, to) == s,
    decreases s.len(),
{
    if s.len() >= from.len() {
        assert(s.subrange(0, from.len() as int)[0] == s[0]);
        lemma_replace_without_brace(s.drop_first(), from, to);
        assert(seq![s[0]] + s.drop_first() =~= s);
    }
}

/// A template without a `{` is left as it is, whatever the context.
pub proof fn law_render_without_placeholders(template: Seq<char>, ctx: Seq<(Seq<char>, Val)>)
    requires
        forall|i: int| 0 <= i < template.len() ==> template[i] != '{',
    ensures
        render_entries(template, ctx) == template,
    decreases ctx.len(),
{
    if ctx.len() > 0 {
        law_render_without_placeholders(template, ctx.drop_last());
        let key = ctx.last().0;
        reveal_strlit("{{ ");
        reveal_strlit("{{");
        assert(spaced_placeholder(key)[0] == '{');
        assert(tight_placeholder(key)[0] == '{');
        lemma_replace_without_brace(template, spaced_placeholder(key), display(ctx.last().1));
        lemma_replace_without_brace(template, tight_placeholder(key), display(ctx.last().1));
    }
}

// ---------------------------------------------------------------------------
// Scoping: which names each scope binds.

/// The names a scope binds, in order.
pub open spec fn keys(s: Scope) -> Seq<Seq<char>> {
    s.map_values(|e: (Seq<char>, Val)| e.0)
}

/// The two chains have as many scopes, each binding the same names.
pub open spec fn same_names(a: Env, b: Env) -> bool {
    a.len() == b.len() && forall|i: int| 0 <= i < a.len() ==> #[trigger] keys(a[i]) == keys(b[i])
}

/// The two chains have as many scopes, each but the innermost binding the same names.
pub open spec fn same_outer_names(a: Env, b: Env) -> bool {
    a.len() == b.len() && forall|i: int| 0 <= i < a.len() - 1 ==> #[trigger] keys(a[i]) == keys(b[i])
}

proof fn lemma_insert_keys(m: Scope, k: Seq<char>, v: Val)
    ensures
        find_key(m, k) is Some ==> keys(insert_entry(m, k, v)) == keys(m),
{
    lemma_find_key(m, k);
    if find_key(m, k) is Some {
        let i = find_key(m, k).unwrap() as int;
        assert(keys(m.update(i, (k, v))) =~= keys(m));
    }
}

proof fn lemma_assign_keys(env: Env, name: Seq<char>, v: Val)
    ensures
        env_assign(env, name, v) matches Some(e) ==> same_names(e, env),
    decreases env.len(),
{
    if env.len() > 0 {
        lemma_insert_keys(env.last(), name, v);
        lemma_assign_keys(env.drop_last(), name, v);
        if find_key(env.last(), name) is None {
            match env_assign(env.drop_last(), name, v) {
                Some(e0) => {
                    let e = e0.push(env.last());
                    assert forall|i: int| 0 <= i < e.len() implies #[trigger] keys(e[i]) == keys(env[i]) by {
                        if i < e0.len() {
                            assert(keys(e0[i]) == keys(env.drop_last()[i]));
                        }
                    }
                },
                None => {},
            }
        }
    }
}

proof fn lemma_define_keys(env: Env, name: Seq<char>, v: Val)
    ensures
        same_outer_names(env_define(env, name, v), env),
{
}

proof fn lemma_eval_names(env: Env, e: Expr, fuel: nat, o: Oracle, pos: nat)
    requires
        env.len() >= 1,
    ensures
        same_names(eval(env, e, fuel, o, pos).env, env),
    decreases fuel, 0nat,
{
    if fuel > 0 {
        let f = (fuel - 1) as nat;
        match e {
            Expr::Binary { op, left, right } => {
                lemma_eval_names(env, *left, f, o, pos);
                let a = eval(env, *left, f, o, pos);
                if a.res is Ok {
                    lemma_eval_names(a.env, *right, f, o, pos + a.calls.len());
                }
            },
            Expr::Unary { op, expr } => {
                lemma_eval_names(env, *expr, f, o, pos);
            },
            Expr::Call { callee, args } => {
                lemma_eval_names(env, *callee, f, o, pos);
                let a = eval(env, *callee, f, o, pos);
                if a.res is Ok {
                    lemma_eval_list_names(a.env, args@, 0, f, o, pos + a.calls.len());
                    let b = eval_list(a.env, args@, 0, f, o, pos + a.calls.len());
                    if b.res is Ok {
                        lemma_call_value_names(
                            b.env,
                            a.res->Ok_0,
                            b.res->Ok_0,
                            f,
                            o,
                            pos + a.calls.len() + b.calls.len(),
                        );
                    }
                }
            },
            Expr::List(items) => {
                lemma_eval_list_names(env, items@, 0, f, o, pos);
            },
            Expr::Dict(pairs) => {
                lemma_eval_pairs_names(env, pairs@, 0, Seq::empty(), f, o, pos);
            },
            Expr::Get { object, name } => {
                lemma_eval_names(env, *object, f, o, pos);
            },
            Expr::OptionalGet { object, name } => {
                lemma_eval_names(env, *object, f, o, pos);
            },
            Expr::Index { object, index } => {
                lemma_eval_names(env, *object, f, o, pos);
                let a = eval(env, *object, f, o, pos);
                if a.res is Ok {
                    lemma_eval_names(a.env, *index, f, o, pos + a.calls.len());
                }
            },
            Expr::OptionalIndex { object, index } => {
                lemma_eval_names(env, *object, f, o, pos);
                let a = eval(env, *object, f, o, pos);
                if a.res is Ok {
                    lemma_eval_names(a.env, *index, f, o, pos + a.calls.len());
                }
            },
            Expr::StringInterpolation(parts) => {
                lemma_eval_parts_names(env, parts@, 0, Seq::empty(), f, o, pos);
            },
            _ => {},
        }
    }
}

proof fn lemma_eval_list_names(env: Env, es: Seq<Expr>, i: nat, fuel: nat, o: Oracle, pos: nat)
    requires
        env.len() >= 1,
    ensures
        same_names(eval_list(env, es, i, fuel, o, pos).env, env),
    decreases fuel, es.len() - i,
{
    if fuel > 0 && i < es.len() {
        lemma_eval_names(env, es[i as int], (fuel - 1) as nat, o, pos);
        let a = eval(env, es[i as int], (fuel - 1) as nat, o, pos);
        if a.res is Ok {
            lemma_eval_list_names(a.env, es, i + 1, fuel, o, pos + a.calls.len());
        }
    }
}

proof fn lemma_eval_pairs_names(
    env: Env,
    ps: Seq<(Expr, Expr)>,
    i: nat,
    acc: Scope,
    fuel: nat,
    o: Oracle,
    pos: nat,
)
    requires
        env.len() >= 1,
    ensures
        same_names(eval_pairs(env, ps, i, acc, fuel, o, pos).env, env),
    decreases fuel, ps.len() - i,
{
    if fuel > 0 && i < ps.len() {
        lemma_eval_names(env, ps[i as int].0, (fuel - 1) as nat, o, pos);
        let a = eval(env, ps[i as int].0, (fuel - 1) as nat, o, pos);
        if a.res is Ok {
            lemma_eval_names(a.env, ps[i as int].1, (fuel - 1) as nat, o, pos + a.calls.len());
            let b = eval(a.env, ps[i as int].1, (fuel - 1) as nat, o, pos + a.calls.len());
            if b.res is Ok {
                match a.res->Ok_0 {
                    Val::Str(key) => {
                        lemma_eval_pairs_names(
                            b.env,
                            ps,
                            i + 1,
                            insert_entry(acc, key, b.res->Ok_0),
                            fuel,
                            o,
                            pos + a.calls.len() + b.calls.len(),
                        );
                    },
                    _ => {},
                }
            }
        }
    }
}

proof fn lemma_eval_parts_names(
    env: Env,
    es: Seq<Expr>,
    i: nat,
    acc: Seq<char>,
    fuel: nat,
    o: Oracle,
    pos: nat,
)
    requires
        env.len() >= 1,
    ensures
        same_names(eval_parts(env, es, i, acc, fuel, o, pos).env, env),
    decreases fuel, es.len() - i,
{
    if fuel > 0 && i < es.len() {
        lemma_eval_names(env, es[i as int], (fuel - 1) as nat, o, pos);
        let a = eval(env, es[i as int], (fuel - 1) as nat, o, pos);
        if a.res is Ok {
            lemma_eval_parts_names(
                a.env,
                es,
                i + 1,
                acc + display(a.res->Ok_0),
                fuel,
                o,
                pos + a.calls.len(),
            );
        }
    }
}

proof fn lemma_call_value_names(env: Env, callee: Val, args: Seq<Val>, fuel: nat, o: Oracle, pos: nat)
    requires
        env.len() >= 1,
    ensures
        same_names(call_value(env, callee, args, fuel, o, pos).env, env),
    decreases fuel, 0nat,
{
    if fuel > 0 {
        match callee {
            Val::Func(params, body) => if params.len() == args.len() {
                lemma_call_body_names(env, bind_params(params, args), body, (fuel - 1) as nat, o, pos);
            },
            _ => {},
        }
    }
}

proof fn lemma_call_body_names(env: Env, bound: Scope, body: Seq<Stmt>, fuel: nat, o: Oracle, pos: nat)
    requires
        env.len() >= 1,
    ensures
        same_names(call_body(env, bound, body, fuel, o, pos).env, env),
    decreases fuel, 1nat,
{
    lemma_exec_block_names(seq![env[0], bound], body, fuel, o, pos);
    let b = exec_block(seq![env[0], bound], body, fuel, o, pos);
    let r = seq![b.env[0]] + env.subrange(1, env.len() as int);
    assert(keys(b.env[0]) == keys(seq![env[0], bound][0]));
    assert forall|i: int| 0 <= i < r.len() implies #[trigger] keys(r[i]) == keys(env[i]) by {
        if i > 0 {
            assert(r[i] == env[i]);
        }
    }
}

proof fn lemma_exec_block_names(env: Env, ss: Seq<Stmt>, fuel: nat, o: Oracle, pos: nat)
    requires
        env.len() >= 1,
    ensures
        same_names(exec_block(env, ss, fuel, o, pos).env, env),
    decreases fuel, 0nat,
{
    if fuel > 0 {
        let inner = env.push(Seq::empty());
        lemma_exec_stmts_names(inner, ss, 0, (fuel - 1) as nat, o, pos);
        let a = exec_stmts(inner, ss, 0, (fuel - 1) as nat, o, pos);
        assert forall|i: int| 0 <= i < env.len() implies #[trigger] keys(a.env.drop_last()[i]) == keys(env[i]) by {
            assert(keys(a.env[i]) == keys(inner[i]));
        }
    }
}

proof fn lemma_exec_stmts_names(env: Env, ss: Seq<Stmt>, i: nat, fuel: nat, o: Oracle, pos: nat)
    requires
        env.len() >= 1,
    ensures
        same_outer_names(exec_stmts(env, ss, i, fuel, o, pos).env, env),
    decreases fuel, ss.len() - i,
{
    if fuel > 0 && i < ss.len() {
        lemma_exec_stmt_names(env, ss[i as int], (fuel - 1) as nat, o, pos);
        let a = exec_stmt(env, ss[i as int], (fuel - 1) as nat, o, pos);
        if a.res matches Ok(Flow::Normal) {
            lemma_exec_stmts_names(a.env, ss, i + 1, fuel, o, pos + a.calls.len());
            let b = exec_stmts(a.env, ss, i + 1, fuel, o, pos + a.calls.len());
            assert forall|j: int| 0 <= j < env.len() - 1 implies #[trigger] keys(b.env[j]) == keys(env[j]) by {
                assert(keys(b.env[j]) == keys(a.env[j]));
            }
        }
    }
}

proof fn lemma_exec_stmt_names(env: Env, s: Stmt, fuel: nat, o: Oracle, pos: nat)
    requires
        env.len() >= 1,
    ensures
        same_outer_names(exec_stmt(env, s, fuel, o, pos).env, env),
    decreases fuel, 0nat,
{
    if fuel > 0 {
        let f = (fuel - 1) as nat;
        match s {
            Stmt::Let { name, init, .. } => {
                lemma_eval_names(env, init, f, o, pos);
                let a = eval(env, init, f, o, pos);
                if a.res is Ok {
                    lemma_define_keys(a.env, name@, a.res->Ok_0);
                    let e2 = env_define(a.env, name@, a.res->Ok_0);
                    assert forall|j: int| 0 <= j < env.len() - 1 implies #[trigger] keys(e2[j]) == keys(env[j]) by {
                        assert(keys(a.env[j]) == keys(env[j]));
                    }
                }
            },
            Stmt::Assign { name, value } => {
                lemma_eval_names(env, value, f, o, pos);
                let a = eval(env, value, f, o, pos);
                if a.res is Ok {
                    lemma_assign_keys(a.env, name@, a.res->Ok_0);
                    match env_assign(a.env, name@, a.res->Ok_0) {
                        Some(e2) => {
                            assert forall|j: int| 0 <= j < env.len() implies #[trigger] keys(e2[j]) == keys(env[j]) by {
                                assert(keys(a.env[j]) == keys(env[j]));
                            }
                        },
                        None => {},
                    }
                }
            },
            Stmt::If { condition, then_branch, else_branch } => {
                lemma_eval_names(env, condition, f, o, pos);
                let a = eval(env, condition, f, o, pos);
                if a.res is Ok {
                    lemma_exec_block_names(a.env, then_branch@, f, o, pos + a.calls.len());
                    match else_branch {
                        Some(eb) => {
                            lemma_exec_block_names(a.env, eb@, f, o, pos + a.calls.len());
                        },
                        None => {},
                    }
                }
            },
            Stmt::While { condition, body } => {
                lemma_exec_while_names(env, condition, body@, f, o, pos);
            },
            Stmt::For { var, iterable, body } => {
                lemma_eval_names(env, iterable, f, o, pos);
                let a = eval(env, iterable, f, o, pos);
                match a.res {
                    Ok(Val::List(items)) => {
                        lemma_exec_for_names(a.env, var@, items, 0, body@, f, o, pos + a.calls.len());
                    },
                    _ => {},
                }
            },
            Stmt::Return(value) => match value {
                Some(x) => {
                    lemma_eval_names(env, x, f, o, pos);
                },
                None => {},
            },
            Stmt::FnDecl { name, params, body, .. } => {
                lemma_define_keys(env, name@, Val::Func(param_names(params@), (*body)@));
            },
            Stmt::Expr(x) => {
                lemma_eval_names(env, x, f, o, pos);
            },
            Stmt::Import { .. } => {},
        }
    }
}

proof fn lemma_exec_while_names(env: Env, cond: Expr, body: Seq<Stmt>, fuel: nat, o: Oracle, pos: nat)
    requires
        env.len() >= 1,
    ensures
        same_names(exec_while(env, cond, body, fuel, o, pos).env, env),
    decreases fuel, 0nat,
{
    if fuel > 0 {
        let f = (fuel - 1) as nat;
        lemma_eval_names(env, cond, f, o, pos);
        let a = eval(env, cond, f, o, pos);
        if a.res is Ok && truthy(a.res->Ok_0) {
            lemma_exec_block_names(a.env, body, f, o, pos + a.calls.len());
            let b = exec_block(a.env, body, f, o, pos + a.calls.len());
            if b.res matches Ok(Flow::Normal) {
                lemma_exec_while_names(b.env, cond, body, f, o, pos + a.calls.len() + b.calls.len());
            }
        }
    }
}

proof fn lemma_exec_for_names(
    env: Env,
    var: Seq<char>,
    items: Seq<Val>,
    i: nat,
    body: Seq<Stmt>,
    fuel: nat,
    o: Oracle,
    pos: nat,
)
    requires
        env.len() >= 1,
    ensures
        same_names(exec_for(env, var, items, i, body, fuel, o, pos).env, env),
    decreases fuel, items.len() - i,
{
    if fuel > 0 && i < items.len() {
        let inner = env.push(seq![(var, items[i as int])]);
        lemma_exec_block_names(inner, body, (fuel - 1) as nat, o, pos);
        let b = exec_block(inner, body, (fuel - 1) as nat, o, pos);
        let back = b.env.drop_last();
        assert forall|j: int| 0 <= j < env.len() implies #[trigger] keys(back[j]) == keys(env[j]) by {
            assert(keys(b.env[j]) == keys(inner[j]));
        }
        if b.res matches Ok(Flow::Normal) {
            lemma_exec_for_names(back, var, items, i + 1, body, fuel, o, pos + b.calls.len());
        }
    }
}

proof fn lemma_unbound_by_names(a: Env, b: Env, name: Seq<char>)
    requires
        same_names(a, b),
    ensures
        env_get(a, name) is None <==> env_get(b, name) is None,
    decreases a.len(),
{
    if a.len() > 0 {
        assert(keys(a.last()) == keys(b.last()));
        lemma_find_key(a.last(), name);
        lemma_find_key(b.last(), name);
        assert((find_key(a.last(), name) is None) <==> (find_key(b.last(), name) is None)) by {
            if find_key(a.last(), name) is Some {
                let k = find_key(a.last(), name).unwrap() as int;
                assert(keys(a.last())[k] == name);
                assert(keys(b.last())[k] == b.last()[k].0);
            }
            if find_key(b.last(), name) is Some {
                let k = find_key(b.last(), name).unwrap() as int;
                assert(keys(b.last())[k] == name);
                assert(keys(a.last())[k] == a.last()[k].0);
            }
        }
        assert(same_names(a.drop_last(), b.drop_last())) by {
            assert forall|i: int| 0 <= i < a.len() - 1 implies #[trigger] keys(a.drop_last()[i]) == keys(
                b.drop_last()[i],
            ) by {
                assert(keys(a[i]) == keys(b[i]));
            }
        }
        lemma_unbound_by_names(a.drop_last(), b.drop_last(), name);
    }
}

/// A block binds nothing outside itself: afterwards there are as many scopes,
/// each binding the names it bound before, and a name that was unbound before
/// the block is unbound after it.
pub proof fn law_block_scoping(env: Env, ss: Seq<Stmt>, fuel: nat, o: Oracle, pos: nat, name: Seq<char>)
    requires
        env.len() >= 1,
    ensures
        same_names(exec_block(env, ss, fuel, o, pos).env, env),
        env_get(env, name) is None ==> env_get(exec_block(env, ss, fuel, o, pos).env, name) is None,
{
    lemma_exec_block_names(env, ss, fuel, o, pos);
    lemma_unbound_by_names(exec_block(env, ss, fuel, o, pos).env, env, name);
}

/// A function call binds nothing in its caller's scopes.
pub proof fn law_call_scoping(env: Env, callee: Val, args: Seq<Val>, fuel: nat, o: Oracle, pos: nat)
    requires
        env.len() >= 1,
    ensures
        same_names(call_value(env, callee, args, fuel, o, pos).env, env),
{
    lemma_call_value_names(env, callee, args, fuel, o, pos);
}

// ---------------------------------------------------------------------------
// Equality.

/// A value whose floats are numbers and whose maps bind each key once.
pub open spec fn val_wf(v: Val) -> bool
    decreases v,
{
    match v {
        Val::Float(bits, _) => !float_is_nan(bits),
        Val::List(x) => forall|i: int| 0 <= i < x.len() ==> val_wf(#[trigger] x[i]),
        Val::Dict(x) => {
            &&& keys_distinct(x)
            &&& forall|i: int| 0 <= i < x.len() ==> val_wf(#[trigger] x[i].1)
        },
        _ => true,
    }
}

proof fn lemma_expr_eq_refl(e: Expr)
    ensures
        expr_eq(e, e),
    decreases e,
{
    match e {
        Expr::Binary { op, left, right } => {
            lemma_expr_eq_refl(*left);
            lemma_expr_eq_refl(*right);
        },
        Expr::Unary { op, expr } => lemma_expr_eq_refl(*expr),
        Expr::Call { callee, args } => {
            lemma_expr_eq_refl(*callee);
            assert forall|i: int| 0 <= i < args@.len() implies expr_eq(args@[i], args@[i]) by {
                assert(decreases_to!(e => args));
                assert(decreases_to!(args => args@));
                lemma_expr_eq_refl(args@[i]);
            }
            assert(exprs_eq(args@, args@));
        },
        Expr::List(items) => {
            assert forall|i: int| 0 <= i < items@.len() implies expr_eq(items@[i], items@[i]) by {
                assert(decreases_to!(items => items@));
                lemma_expr_eq_refl(items@[i]);
            }
            assert(exprs_eq(items@, items@));
        },
        Expr::Dict(pairs) => {
            assert forall|i: int| 0 <= i < pairs@.len() implies expr_eq(pairs@[i].0, pairs@[i].0)
                && expr_eq(pairs@[i].1, pairs@[i].1) by {
                assert(decreases_to!(pairs => pairs@));
                lemma_expr_eq_refl(pairs@[i].0);
                lemma_expr_eq_refl(pairs@[i].1);
            }
            assert(pairs_eq(pairs@, pairs@));
        },
        Expr::Get { object, name } => lemma_expr_eq_refl(*object),
        Expr::OptionalGet { object, name } => lemma_expr_eq_refl(*object),
        Expr::Index { object, index } => {
            lemma_expr_eq_refl(*object);
            lemma_expr_eq_refl(*index);
        },
        Expr::OptionalIndex { object, index } => {
            lemma_expr_eq_refl(*object);
            lemma_expr_eq_refl(*index);
        },
        Expr::StringInterpolation(parts) => {
            assert forall|i: int| 0 <= i < parts@.len() implies expr_eq(parts@[i], parts@[i]) by {
                assert(decreases_to!(parts => parts@));
                lemma_expr_eq_refl(parts@[i]);
            }
            assert(exprs_eq(parts@, parts@));
        },
        _ => {},
    }
}

proof fn lemma_stmts_eq_refl(ss: Seq<Stmt>)
    ensures
        stmts_eq(ss, ss),
    decreases ss,
{
    assert forall|i: int| 0 <= i < ss.len() implies stmt_eq(ss[i], ss[i]) by {
        lemma_stmt_eq_refl(ss[i]);
    }
}

proof fn lemma_stmt_eq_refl(s: Stmt)
    ensures
        stmt_eq(s, s),
    decreases s,
{
    match s {
        Stmt::Let { init, .. } => lemma_expr_eq_refl(init),
        Stmt::Assign { value, .. } => lemma_expr_eq_refl(value),
        Stmt::If { condition, then_branch, else_branch } => {
            lemma_expr_eq_refl(condition);
            assert(decreases_to!(then_branch => then_branch@));
            lemma_stmts_eq_refl(then_branch@);
            match else_branch {
                Some(b) => {
                    assert(decreases_to!(b => b@));
                    lemma_stmts_eq_refl(b@);
                },
                None => {},
            }
        },
        Stmt::While { condition, body } => {
            lemma_expr_eq_refl(condition);
            assert(decreases_to!(body => body@));
            lemma_stmts_eq_refl(body@);
        },
        Stmt::For { iterable, body, .. } => {
            lemma_expr_eq_refl(iterable);
            assert(decreases_to!(body => body@));
            lemma_stmts_eq_refl(body@);
        },
        Stmt::Return(value) => match value {
            Some(x) => lemma_expr_eq_refl(x),
            None => {},
        },
        Stmt::FnDecl { body, .. } => {
            lemma_stmts_eq_refl((*body)@);
        },
        Stmt::Expr(x) => lemma_expr_eq_refl(x),
        Stmt::Import { .. } => {},
    }
}

/// A value equals itself, unless it holds a NaN (or a map that binds a key
/// twice, which no program builds).
pub proof fn law_equality_reflexive(v: Val)
    requires
        val_wf(v),
    ensures
        val_eq(v, v),
    decreases v,
{
    match v {
        Val::List(x) => {
            assert forall|i: int| 0 <= i < x.len() implies val_eq(x[i], x[i]) by {
                assert(val_wf(x[i]));
                law_equality_reflexive(x[i]);
            }
        },
        Val::Dict(x) => {
            assert forall|i: int| #![trigger x[i]] 0 <= i < x.len() implies match lookup(x, x[i].0) {
                Some(w) => val_eq(x[i].1, w),
                None => false,
            } by {
                lemma_find_key(x, x[i].0);
                assert(find_key(x, x[i].0) == Some(i as nat));
                assert(val_wf(x[i].1));
                law_equality_reflexive(x[i].1);
            }
        },
        Val::Func(p, body) => lemma_stmts_eq_refl(body),
        _ => {},
    }
}

// ---------------------------------------------------------------------------
// Running statements in sequence.

proof fn lemma_stmts_shift(env: Env, a: Seq<Stmt>, b: Seq<Stmt>, j: nat, fuel: nat, o: Oracle, pos: nat)
    ensures
        exec_stmts(env, a + b, a.len() + j, fuel, o, pos) == exec_stmts(env, b, j, fuel, o, pos),
    decreases b.len() - j,
{
    if fuel > 0 && j < b.len() {
        assert((a + b)[(a.len() + j) as int] == b[j as int]);
        let x = exec_stmt(env, b[j as int], (fuel - 1) as nat, o, pos);
        if x.res matches Ok(Flow::Normal) {
            lemma_stmts_shift(x.env, a, b, j + 1, fuel, o, pos + x.calls.len());
        }
    }
}

proof fn lemma_stmts_prefix(env: Env, a: Seq<Stmt>, b: Seq<Stmt>, i: nat, fuel: nat, o: Oracle, pos: nat)
    requires
        i <= a.len(),
    ensures
        ({
            let r = exec_stmts(env, a, i, fuel, o, pos);
            let rb = exec_stmts(r.env, b, 0, fuel, o, pos + r.calls.len());
            &&& r.res == Ok::<Flow, Fault>(Flow::Normal) ==> exec_stmts(env, a + b, i, fuel, o, pos) == (Out {
                res: rb.res,
                env: rb.env,
                calls: r.calls + rb.calls,
            })
            &&& r.res != Ok::<Flow, Fault>(Flow::Normal) ==> exec_stmts(env, a + b, i, fuel, o, pos) == r
        }),
    decreases a.len() - i,
{
    if fuel > 0 {
        if i == a.len() {
            lemma_stmts_shift(env, a, b, 0, fuel, o, pos);
            let rb = exec_stmts(env, b, 0, fuel, o, pos);
            assert(Seq::<Request>::empty() + rb.calls =~= rb.calls);
        } else {
            assert((a + b)[i as int] == a[i as int]);
            let x = exec_stmt(env, a[i as int], (fuel - 1) as nat, o, pos);
            if x.res matches Ok(Flow::Normal) {
                lemma_stmts_prefix(x.env, a, b, i + 1, fuel, o, pos + x.calls.len());
                let r1 = exec_stmts(x.env, a, i + 1, fuel, o, pos + x.calls.len());
                let rb = exec_stmts(r1.env, b, 0, fuel, o, pos + x.calls.len() + r1.calls.len());
                assert(x.calls + (r1.calls + rb.calls) =~= (x.calls + r1.calls) + rb.calls);
            }
        }
    }
}

/// Running `a` and then `b`, where `a` ends without returning or failing, is
/// running `a` followed by `b` in one program: the same result, scopes and
/// requests.
pub proof fn law_run_in_sequence(env: Env, a: Seq<Stmt>, b: Seq<Stmt>, fuel: nat, o: Oracle, pos: nat)
    requires
        exec_stmts(env, a, 0, fuel, o, pos).res == Ok::<Flow, Fault>(Flow::Normal),
    ensures
        ({
            let ra = run_program(env, a, fuel, o, pos);
            let rb = run_program(ra.env, b, fuel, o, pos + ra.calls.len());
            run_program(env, a + b, fuel, o, pos) == (Out { res: rb.res, env: rb.env, calls: ra.calls + rb.calls })
        }),
{
    lemma_stmts_prefix(env, a, b, 0, fuel, o, pos);
}

proof fn lemma_no_names_no_binding(sc: Scope, name: Seq<char>)
    requires
        keys(sc).len() == 0,
    ensures
        lookup(sc, name) is None,
        find_key(sc, name) is None,
{
    lemma_find_key(sc, name);
}

/// An assignment inside a block to a name bound outside it is what the name
/// gives after the block.
#[verifier::spinoff_prover]
#[verifier::rlimit(60)]
pub proof fn law_block_assignment_reaches_outer(
    env: Env,
    name: String,
    value: Expr,
    fuel: nat,
    o: Oracle,
    pos: nat,
)
    requires
        env.len() >= 1,
        fuel >= 3,
        env_get(env, name@) is Some,
    ensures
        eval(env.push(Seq::empty()), value, (fuel - 3) as nat, o, pos).res matches Ok(v) ==> env_get(
            exec_block(env, seq![Stmt::Assign { name, value }], fuel, o, pos).env,
            name@,
        ) == Some(v),
{
    let inner = env.push(Seq::empty());
    let a = eval(inner, value, (fuel - 3) as nat, o, pos);
    if a.res is Ok {
        let v = a.res->Ok_0;
        let ss = seq![Stmt::Assign { name, value }];
        assert(inner.drop_last() =~= env);
        lemma_no_names_no_binding(inner.last(), name@);
        assert(env_get(inner, name@) == env_get(env, name@));
        lemma_eval_names(inner, value, (fuel - 3) as nat, o, pos);
        lemma_unbound_by_names(a.env, inner, name@);
        law_assign_then_get(a.env, name@, v);
        let e2 = env_assign(a.env, name@, v).unwrap();
        lemma_assign_keys(a.env, name@, v);
        assert(keys(e2.last()) == keys(a.env.last()));
        assert(keys(a.env.last()) == keys(inner.last()));
        assert(keys(inner.last()) =~= Seq::<Seq<char>>::empty());
        lemma_no_names_no_binding(e2.last(), name@);
        assert(env_get(e2, name@) == env_get(e2.drop_last(), name@));
        assert(ss[0] == Stmt::Assign { name, value });
        let x = exec_stmt(inner, ss[0], (fuel - 2) as nat, o, pos);
        assert(x.env == e2 && x.res == Ok::<Flow, Fault>(Flow::Normal));
        let r = exec_stmts(inner, ss, 0, (fuel - 1) as nat, o, pos);
        assert(exec_stmts(x.env, ss, 1, (fuel - 1) as nat, o, pos + x.calls.len()).env == e2);
        assert(r.env == e2);
    }
}

proof fn lemma_eval_pairs_distinct(
    env: Env,
    ps: Seq<(Expr, Expr)>,
    i: nat,
    acc: Scope,
    fuel: nat,
    o: Oracle,
    pos: nat,
)
    requires
        keys_distinct(acc),
    ensures
        eval_pairs(env, ps, i, acc, fuel, o, pos).res matches Ok(m) ==> keys_distinct(m),
    decreases ps.len() - i,
{
    if fuel > 0 && i < ps.len() {
        let a = eval(env, ps[i as int].0, (fuel - 1) as nat, o, pos);
        if a.res is Ok {
            let b = eval(a.env, ps[i as int].1, (fuel - 1) as nat, o, pos + a.calls.len());
            if b.res is Ok {
                match a.res->Ok_0 {
                    Val::Str(key) => {
                        lemma_insert_distinct(acc, key, b.res->Ok_0);
                        lemma_eval_pairs_distinct(
                            b.env,
                            ps,
                            i + 1,
                            insert_entry(acc, key, b.res->Ok_0),
                            fuel,
                            o,
                            pos + a.calls.len() + b.calls.len(),
                        );
                    },
                    _ => {},
                }
            }
        }
    }
}

/// A map that a program writes binds each key once.
pub proof fn law_map_literal_keys_distinct(env: Env, pairs: Vec<(Expr, Expr)>, fuel: nat, o: Oracle, pos: nat)
    ensures
        eval(env, Expr::Dict(pairs), fuel, o, pos).res matches Ok(Val::Dict(m)) ==> keys_distinct(m),
{
    if fuel > 0 {
        lemma_eval_pairs_distinct(env, pairs@, 0, Seq::empty(), (fuel - 1) as nat, o, pos);
    }
}

/// Each scope binds each name once.
pub open spec fn scopes_distinct(env: Env) -> bool {
    forall|i: int| 0 <= i < env.len() ==> keys_distinct(#[trigger] env[i])
}

/// Defining and assigning variables keep each scope binding each name once.
pub proof fn law_scopes_stay_distinct(env: Env, name: Seq<char>, v: Val)
    requires
        scopes_distinct(env),
    ensures
        scopes_distinct(env_define(env, name, v)),
        env_assign(env, name, v) matches Some(e) ==> scopes_distinct(e),
    decreases env.len(),
{
    if env.len() > 0 {
        lemma_insert_distinct(env.last(), name, v);
        let e1 = env_define(env, name, v);
        assert forall|i: int| 0 <= i < e1.len() implies keys_distinct(#[trigger] e1[i]) by {
            if i < env.len() - 1 {
                assert(e1[i] == env[i]);
            }
        }
        assert(scopes_distinct(env.drop_last())) by {
            assert forall|i: int| 0 <= i < env.len() - 1 implies keys_distinct(#[trigger] env.drop_last()[i]) by {
                assert(env.drop_last()[i] == env[i]);
            }
        }
        law_scopes_stay_distinct(env.drop_last(), name, v);
        if find_key(env.last(), name) is None {
            match env_assign(env.drop_last(), name, v) {
                Some(e0) => {
                    let e = e0.push(env.last());
                    assert forall|i: int| 0 <= i < e.len() implies keys_distinct(#[trigger] e[i]) by {
                        if i < e0.len() {
                            assert(e[i] == e0[i]);
                        }
                    }
                },
                None => {},
            }
        }
    }
}

// ---------------------------------------------------------------------------
// What a block leaves behind.

/// The statement defines `n` in its own scope (`let n` or `fn n`).
pub open spec fn stmt_defines(s: Stmt, n: Seq<char>) -> bool {
    match s {
        Stmt::Let { name, .. } => name@ == n,
        Stmt::FnDecl { name, .. } => name@ == n,
        _ => false,
    }
}

/// One of the statements defines `n`.
pub open spec fn block_defines(ss: Seq<Stmt>, n: Seq<char>) -> bool {
    exists|j: int| 0 <= j < ss.len() && #[trigger] stmt_defines(ss[j], n)
}

proof fn lemma_insert_keys_grow(m: Scope, k: Seq<char>, v: Val, n: Seq<char>)
    ensures
        keys(insert_entry(m, k, v)).contains(n) ==> keys(m).contains(n) || n == k,
{
    lemma_insert_keys(m, k, v);
    lemma_find_key(m, k);
    if find_key(m, k) is None {
        let m2 = m.push((k, v));
        if keys(m2).contains(n) {
            let i = choose|i: int| 0 <= i < keys(m2).len() && keys(m2)[i] == n;
            if i < m.len() {
                assert(keys(m)[i] == n);
            }
        }
    }
}

proof fn lemma_absent_key(sc: Scope, n: Seq<char>)
    requires
        !keys(sc).contains(n),
    ensures
        find_key(sc, n) is None,
        lookup(sc, n) is None,
{
    lemma_find_key(sc, n);
    if find_key(sc, n) is Some {
        let i = find_key(sc, n).unwrap() as int;
        assert(keys(sc)[i] == n);
    }
}

proof fn lemma_exec_stmt_own_names(env: Env, s: Stmt, fuel: nat, o: Oracle, pos: nat, n: Seq<char>)
    requires
        env.len() >= 1,
    ensures
        keys(exec_stmt(env, s, fuel, o, pos).env.last()).contains(n) ==> keys(env.last()).contains(n)
            || stmt_defines(s, n),
{
    if fuel > 0 {
        let f = (fuel - 1) as nat;
        let last = env.len() - 1;
        match s {
            Stmt::Let { name, init, .. } => {
                lemma_eval_names(env, init, f, o, pos);
                let a = eval(env, init, f, o, pos);
                assert(keys(a.env[last]) == keys(env[last]));
                if a.res is Ok {
                    lemma_insert_keys_grow(a.env.last(), name@, a.res->Ok_0, n);
                }
            },
            Stmt::Assign { name, value } => {
                lemma_eval_names(env, value, f, o, pos);
                let a = eval(env, value, f, o, pos);
                assert(keys(a.env[last]) == keys(env[last]));
                if a.res is Ok {
                    lemma_assign_keys(a.env, name@, a.res->Ok_0);
                    match env_assign(a.env, name@, a.res->Ok_0) {
                        Some(e2) => {
                            assert(keys(e2[last]) == keys(a.env[last]));
                        },
                        None => {},
                    }
                }
            },
            Stmt::If { condition, then_branch, else_branch } => {
                lemma_eval_names(env, condition, f, o, pos);
                let a = eval(env, condition, f, o, pos);
                assert(keys(a.env[last]) == keys(env[last]));
                if a.res is Ok {
                    lemma_exec_block_names(a.env, then_branch@, f, o, pos + a.calls.len());
                    assert(keys(exec_block(a.env, then_branch@, f, o, pos + a.calls.len()).env[last])
                        == keys(a.env[last]));
                    match else_branch {
                        Some(eb) => {
                            lemma_exec_block_names(a.env, eb@, f, o, pos + a.calls.len());
                            assert(keys(exec_block(a.env, eb@, f, o, pos + a.calls.len()).env[last])
                                == keys(a.env[last]));
                        },
                        None => {},
                    }
                }
            },
            Stmt::While { condition, body } => {
                lemma_exec_while_names(env, condition, body@, f, o, pos);
                assert(keys(exec_while(env, condition, body@, f, o, pos).env[last]) == keys(env[last]));
            },
            Stmt::For { var, iterable, body } => {
                lemma_eval_names(env, iterable, f, o, pos);
                let a = eval(env, iterable, f, o, pos);
                assert(keys(a.env[last]) == keys(env[last]));
                match a.res {
                    Ok(Val::List(items)) => {
                        lemma_exec_for_names(a.env, var@, items, 0, body@, f, o, pos + a.calls.len());
                        assert(keys(exec_for(a.env, var@, items, 0, body@, f, o, pos + a.calls.len()).env[last])
                            == keys(a.env[last]));
                    },
                    _ => {},
                }
            },
            Stmt::Return(value) => match value {
                Some(x) => {
                    lemma_eval_names(env, x, f, o, pos);
                    assert(keys(eval(env, x, f, o, pos).env[last]) == keys(env[last]));
                },
                None => {},
            },
            Stmt::FnDecl { name, params, body, .. } => {
                lemma_insert_keys_grow(env.last(), name@, Val::Func(param_names(params@), (*body)@), n);
            },
            Stmt::Expr(x) => {
                lemma_eval_names(env, x, f, o, pos);
                assert(keys(eval(env, x, f, o, pos).env[last]) == keys(env[last]));
            },
            Stmt::Import { .. } => {},
        }
    }
}

proof fn lemma_exec_stmts_own_names(env: Env, ss: Seq<Stmt>, i: nat, fuel: nat, o: Oracle, pos: nat, n: Seq<char>)
    requires
        env.len() >= 1,
    ensures
        keys(exec_stmts(env, ss, i, fuel, o, pos).env.last()).contains(n) ==> keys(env.last()).contains(n)
            || block_defines(ss, n),
    decreases ss.len() - i,
{
    if fuel > 0 && i < ss.len() {
        lemma_exec_stmt_own_names(env, ss[i as int], (fuel - 1) as nat, o, pos, n);
        lemma_exec_stmt_names(env, ss[i as int], (fuel - 1) as nat, o, pos);
        let x = exec_stmt(env, ss[i as int], (fuel - 1) as nat, o, pos);
        if stmt_defines(ss[i as int], n) {
            assert(block_defines(ss, n));
        }
        if x.res matches Ok(Flow::Normal) {
            lemma_exec_stmts_own_names(x.env, ss, i + 1, fuel, o, pos + x.calls.len(), n);
        }
    }
}

/// A name that none of a block's own `let`s and functions defines gives, after
/// the block, what it gave when the block's statements ended: an assignment in
/// the block to a name bound outside it stays.
pub proof fn law_block_keeps_outer_assignments(
    env: Env,
    ss: Seq<Stmt>,
    fuel: nat,
    o: Oracle,
    pos: nat,
    name: Seq<char>,
)
    requires
        env.len() >= 1,
        fuel > 0,
        !block_defines(ss, name),
    ensures
        env_get(exec_block(env, ss, fuel, o, pos).env, name) == env_get(
            exec_stmts(env.push(Seq::empty()), ss, 0, (fuel - 1) as nat, o, pos).env,
            name,
        ),
{
    let inner = env.push(Seq::empty());
    lemma_exec_stmts_own_names(inner, ss, 0, (fuel - 1) as nat, o, pos, name);
    lemma_exec_stmts_names(inner, ss, 0, (fuel - 1) as nat, o, pos);
    let a = exec_stmts(inner, ss, 0, (fuel - 1) as nat, o, pos);
    assert(keys(inner.last()) =~= Seq::<Seq<char>>::empty());
    lemma_absent_key(a.env.last(), name);
}

// ---------------------------------------------------------------------------
// Comparison operators.

/// The boolean that a comparison of two values gives, if it gives one.
pub open spec fn compared(op: BinaryOp, a: Val, b: Val, o: Oracle, pos: nat) -> Option<bool> {
    match apply_binary(op, a, b, o, pos).0 {
        Ok(Val::Bool(t)) => Some(t),
        _ => None,
    }
}

/// Two values that are ordered among themselves: integers, strings or booleans.
pub open spec fn ordered_pair(a: Val, b: Val) -> bool {
    (a is Int && b is Int) || (a is Str && b is Str) || (a is Bool && b is Bool)
}

proof fn lemma_char_code(c: char, d: char)
    requires
        (c as u32) == (d as u32),
    ensures
        c == d,
{
    vstd::utf8::char_u32_cast(c, c as u32);
    vstd::utf8::char_u32_cast(d, d as u32);
}

proof fn lemma_seq_order_equal(a: Seq<char>, b: Seq<char>)
    ensures
        (seq_order(a, b) == Order::Equal) <==> a == b,
    decreases a.len(),
{
    if a.len() > 0 && b.len() > 0 {
        lemma_seq_order_equal(a.drop_first(), b.drop_first());
        if (a[0] as u32) == (b[0] as u32) {
            lemma_char_code(a[0], b[0]);
            if a.drop_first() == b.drop_first() {
                assert(a =~= seq![a[0]] + a.drop_first());
                assert(b =~= seq![b[0]] + b.drop_first());
            }
        } else if a == b {
            assert(a[0] == b[0]);
        }
    } else if a.len() == 0 && b.len() == 0 {
        assert(a =~= b);
    }
}

/// Comparisons of ordered values make no request, and agree with each other:
/// `a <= b` holds exactly when `a < b` or `a == b`, which is exactly when
/// `a > b` does not; `a >= b` is `b <= a`; `a < b` is `b > a`; every value is
/// `<=` itself. On integers they are the order of the numbers.
pub proof fn law_comparisons_agree(a: Val, b: Val, o: Oracle, pos: nat)
    requires
        ordered_pair(a, b),
    ensures
        compared(BinaryOp::Lt, a, b, o, pos) is Some,
        compared(BinaryOp::Le, a, b, o, pos) is Some,
        compared(BinaryOp::Gt, a, b, o, pos) is Some,
        compared(BinaryOp::Ge, a, b, o, pos) is Some,
        apply_binary(BinaryOp::Le, a, b, o, pos).1 == Seq::<Request>::empty(),
        compared(BinaryOp::Le, a, b, o, pos) == Some(
            compared(BinaryOp::Lt, a, b, o, pos) == Some(true) || compared(BinaryOp::Eq, a, b, o, pos)
                == Some(true),
        ),
        compared(BinaryOp::Le, a, b, o, pos) == Some(compared(BinaryOp::Gt, a, b, o, pos) == Some(false)),
        compared(BinaryOp::Ge, a, b, o, pos) == Some(compared(BinaryOp::Lt, a, b, o, pos) == Some(false)),
        compared(BinaryOp::Ge, a, b, o, pos) == compared(BinaryOp::Le, b, a, o, pos),
        compared(BinaryOp::Lt, a, b, o, pos) == compared(BinaryOp::Gt, b, a, o, pos),
        compared(BinaryOp::Le, a, a, o, pos) == Some(true),
        compared(BinaryOp::Ge, a, a, o, pos) == Some(true),
        compared(BinaryOp::Lt, a, a, o, pos) == Some(false),
        (a is Int && b is Int) ==> {
            &&& compared(BinaryOp::Lt, a, b, o, pos) == Some(a->Int_0 < b->Int_0)
            &&& compared(BinaryOp::Le, a, b, o, pos) == Some(a->Int_0 <= b->Int_0)
            &&& compared(BinaryOp::Gt, a, b, o, pos) == Some(a->Int_0 > b->Int_0)
            &&& compared(BinaryOp::Ge, a, b, o, pos) == Some(a->Int_0 >= b->Int_0)
        },
{
    match (a, b) {
        (Val::Str(x), Val::Str(y)) => {
            lemma_seq_order_reversed(x, y);
            lemma_seq_order_equal(x, y);
            lemma_seq_order_equal(x, x);
        },
        _ => {},
    }
}

// ---------------------------------------------------------------------------
// Filling templates.

/// `s` written `n` times.
pub open spec fn repeat(s: Seq<char>, n: nat) -> Seq<char>
    decreases n,
{
    if n == 0 {
        Seq::empty()
    } else {
        s + repeat(s, (n - 1) as nat)
    }
}

proof fn lemma_replace_skips(x: Seq<char>, r: Seq<char>, from: Seq<char>, to: Seq<char>)
    requires
        from.len() > 0,
        forall|i: int| 0 <= i < x.len() ==> x[i] != from[0],
    ensures
        replace_all(x + r, from, to) == x + replace_all(r, from, to),
    decreases x.len(),
{
    if x.len() > 0 {
        let s = x + r;
        if s.len() >= from.len() {
            assert(s.subrange(0, from.len() as int)[0] == x[0]);
        }
        assert(s.drop_first() =~= x.drop_first() + r);
        lemma_replace_skips(x.drop_first(), r, from, to);
        assert(seq![x[0]] + (x.drop_first() + replace_all(r, from, to)) =~= x + replace_all(r, from, to));
    } else {
        assert(x + r =~= r);
        assert(x + replace_all(r, from, to) =~= replace_all(r, from, to));
    }
}

/// Every occurrence is replaced: text made of `n` pieces, each some text
/// without the first character of `from` followed by `from`, becomes those
/// pieces with `to` in place of each `from`.
pub proof fn law_replace_every_occurrence(x: Seq<char>, from: Seq<char>, to: Seq<char>, n: nat)
    requires
        from.len() > 0,
        forall|i: int| 0 <= i < x.len() ==> x[i] != from[0],
    ensures
        replace_all(repeat(x + from, n), from, to) == repeat(x + to, n),
    decreases n,
{
    if n > 0 {
        law_replace_every_occurrence(x, from, to, (n - 1) as nat);
        let rest = repeat(x + from, (n - 1) as nat);
        assert(repeat(x + from, n) =~= x + (from + rest));
        lemma_replace_skips(x, from + rest, from, to);
        assert((from + rest).subrange(0, from.len() as int) =~= from);
        assert((from + rest).subrange(from.len() as int, (from + rest).len() as int) =~= rest);
        assert(repeat(x + to, n) =~= x + (to + repeat(x + to, (n - 1) as nat)));
    }
}

/// Rendering fills every placeholder of a key: a template made of `n` pieces,
/// each some text without `{` followed by `{{ key }}`, becomes those pieces
/// with the value's text in place of each placeholder (when that text has no
/// `{` either).
pub proof fn law_render_fills_every_placeholder(x: Seq<char>, key: Seq<char>, v: Val, n: nat)
    requires
        forall|i: int| 0 <= i < x.len() ==> x[i] != '{',
        forall|i: int| 0 <= i < display(v).len() ==> display(v)[i] != '{',
    ensures
        render_entries(repeat(x + spaced_placeholder(key), n), seq![(key, v)]) == repeat(x + display(v), n),
{
    reveal_strlit("{{ ");
    reveal_strlit("{{");
    let sp = spaced_placeholder(key);
    let tp = tight_placeholder(key);
    assert(sp[0] == '{');
    assert(tp[0] == '{');
    law_replace_every_occurrence(x, sp, display(v), n);
    let once = repeat(x + display(v), n);
    lemma_repeat_no_brace(x + display(v), n);
    lemma_replace_without_brace(once, tp, display(v));
    let ctx = seq![(key, v)];
    let t = repeat(x + sp, n);
    assert(ctx.drop_last() =~= Seq::<(Seq<char>, Val)>::empty());
    assert(render_entries(t, ctx.drop_last()) == t);
    assert(ctx.last() == (key, v));
    assert(replace_all(t, sp, display(v)) == once);
    assert(render_entries(t, ctx) == replace_all(replace_all(t, sp, display(v)), tp, display(v)));
}

proof fn lemma_repeat_no_brace(s: Seq<char>, n: nat)
    requires
        forall|i: int| 0 <= i < s.len() ==> s[i] != '{',
    ensures
        forall|i: int| 0 <= i < repeat(s, n).len() ==> repeat(s, n)[i] != '{',
    decreases n,
{
    if n > 0 {
        lemma_repeat_no_brace(s, (n - 1) as nat);
        let r = repeat(s, (n - 1) as nat);
        assert forall|i: int| 0 <= i < (s + r).len() implies (s + r)[i] != '{' by {
            if i >= s.len() {
                assert((s + r)[i] == r[i - s.len()]);
            }
        }
    }
}

// ---------------------------------------------------------------------------
// The request object.

proof fn lemma_pairs_dict_lookup(ps: Seq<(Seq<char>, Seq<char>)>, k: Seq<char>)
    ensures
        (forall|i: int| 0 <= i < ps.len() ==> ps[i].0 != k) ==> lookup(pairs_dict(ps), k) is None,
        forall|i: int|
            0 <= i < ps.len() && ps[i].0 == k && (forall|j: int| i < j < ps.len() ==> ps[j].0 != k)
                ==> lookup(pairs_dict(ps), k) == Some(Val::Str(ps[i].1)),
    decreases ps.len(),
{
    if ps.len() > 0 {
        let init = ps.drop_last();
        lemma_pairs_dict_lookup(init, k);
        law_dict_read_after_write(pairs_dict(init), ps.last().0, Val::Str(ps.last().1), k);
        assert forall|i: int|
            0 <= i < ps.len() && ps[i].0 == k && (forall|j: int| i < j < ps.len() ==> ps[j].0 != k)
            implies lookup(pairs_dict(ps), k) == Some(Val::Str(ps[i].1)) by {
            if i < ps.len() - 1 {
                assert(ps.last().0 != k);
                assert(init[i] == ps[i]);
                assert(forall|j: int| i < j < init.len() ==> init[j] == ps[j]);
            }
        }
        if forall|i: int| 0 <= i < ps.len() ==> ps[i].0 != k {
            assert(ps.last().0 != k);
            assert(forall|i: int| 0 <= i < init.len() ==> init[i] == ps[i]);
        }
    }
}

proof fn lemma_request_keys()
    ensures
        "method"@ != "path"@,
        "method"@ != "query"@,
        "method"@ != "headers"@,
        "path"@ != "query"@,
        "path"@ != "headers"@,
        "query"@ != "headers"@,
{
    reveal_strlit("method");
    reveal_strlit("path");
    reveal_strlit("query");
    reveal_strlit("headers");
    assert("method"@.len() == 6);
    assert("path"@.len() == 4);
    assert("query"@.len() == 5);
    assert("headers"@.len() == 7);
}

/// The parts of the request object: `method` and `path` are the given texts;
/// `headers` maps each given header name to the value of its last pair and
/// binds no other name, and so does `query` with the query parameters. The
/// headers map does not depend on the query, nor the query map on the headers.
pub proof fn law_request_object_parts(
    method: Seq<char>,
    path: Seq<char>,
    query: Seq<(Seq<char>, Seq<char>)>,
    headers: Seq<(Seq<char>, Seq<char>)>,
    other_query: Seq<(Seq<char>, Seq<char>)>,
    other_headers: Seq<(Seq<char>, Seq<char>)>,
    k: Seq<char>,
)
    ensures
        request_object(method, path, query, headers) matches Val::Dict(m) && {
            &&& lookup(m, "method"@) == Some(Val::Str(method))
            &&& lookup(m, "path"@) == Some(Val::Str(path))
            &&& lookup(m, "query"@) == Some(Val::Dict(pairs_dict(query)))
            &&& lookup(m, "headers"@) == Some(Val::Dict(pairs_dict(headers)))
        },
        lookup(request_object(method, path, query, headers)->Dict_0, "headers"@) == lookup(
            request_object(method, path, other_query, headers)->Dict_0,
            "headers"@,
        ),
        lookup(request_object(method, path, query, headers)->Dict_0, "query"@) == lookup(
            request_object(method, path, query, other_headers)->Dict_0,
            "query"@,
        ),
        (forall|i: int| 0 <= i < headers.len() ==> headers[i].0 != k) ==> lookup(pairs_dict(headers), k) is None,
        forall|i: int|
            0 <= i < headers.len() && headers[i].0 == k && (forall|j: int| i < j < headers.len() ==> headers[j].0 != k)
                ==> lookup(pairs_dict(headers), k) == Some(Val::Str(headers[i].1)),
        (forall|i: int| 0 <= i < query.len() ==> query[i].0 != k) ==> lookup(pairs_dict(query), k) is None,
        forall|i: int|
            0 <= i < query.len() && query[i].0 == k && (forall|j: int| i < j < query.len() ==> query[j].0 != k)
                ==> lookup(pairs_dict(query), k) == Some(Val::Str(query[i].1)),
{
    lemma_request_keys();
    lemma_pairs_dict_lookup(headers, k);
    lemma_pairs_dict_lookup(query, k);
    assert forall|q: Seq<(Seq<char>, Seq<char>)>, h: Seq<(Seq<char>, Seq<char>)>|
        #[trigger] request_object(method, path, q, h) matches Val::Dict(m) && {
            &&& lookup(m, "method"@) == Some(Val::Str(method))
            &&& lookup(m, "path"@) == Some(Val::Str(path))
            &&& lookup(m, "query"@) == Some(Val::Dict(pairs_dict(q)))
            &&& lookup(m, "headers"@) == Some(Val::Dict(pairs_dict(h)))
        } by {
        let m1 = insert_entry(Seq::empty(), "method"@, Val::Str(method));
        let m2 = insert_entry(m1, "path"@, Val::Str(path));
        let m3 = insert_entry(m2, "query"@, Val::Dict(pairs_dict(q)));
        let m4 = insert_entry(m3, "headers"@, Val::Dict(pairs_dict(h)));
        law_dict_read_after_write(Seq::empty(), "method"@, Val::Str(method), "method"@);
        law_dict_read_after_write(m1, "path"@, Val::Str(path), "method"@);
        law_dict_read_after_write(m2, "query"@, Val::Dict(pairs_dict(q)), "method"@);
        law_dict_read_after_write(m3, "headers"@, Val::Dict(pairs_dict(h)), "method"@);
        law_dict_read_after_write(m1, "path"@, Val::Str(path), "path"@);
        law_dict_read_after_write(m2, "query"@, Val::Dict(pairs_dict(q)), "path"@);
        law_dict_read_after_write(m3, "headers"@, Val::Dict(pairs_dict(h)), "path"@);
        law_dict_read_after_write(m2, "query"@, Val::Dict(pairs_dict(q)), "query"@);
        law_dict_read_after_write(m3, "headers"@, Val::Dict(pairs_dict(h)), "query"@);
        law_dict_read_after_write(m3, "headers"@, Val::Dict(pairs_dict(h)), "headers"@);
    }
    assert(request_object(method, path, query, headers) is Dict);
    assert(request_object(method, path, other_query, headers) is Dict);
    assert(request_object(method, path, query, other_headers) is Dict);
}

// ---------------------------------------------------------------------------
// Responses.

/// A page's value is answered with a success status; lists and maps, and only
/// they, go as JSON carrying the value itself; null, and only null, gets `204`
/// and an empty body; a string goes as its own text. A missing page is `404`;
/// a failure is `500` with the error's message after `Error: `.
pub proof fn law_response_kinds(v: Val, msg: Seq<char>)
    ensures
        200 <= response_for(Some(Ok(v))).0 < 300,
        (v is List || v is Dict) <==> response_for(Some(Ok(v))).1 is Json,
        (v is List || v is Dict) ==> response_for(Some(Ok(v))) == (200u16, BodyM::Json(v)),
        (v is Null) <==> response_for(Some(Ok(v))).0 == 204,
        v is Null ==> response_for(Some(Ok(v))).1 == BodyM::Text(Seq::empty()),
        v matches Val::Str(t) ==> response_for(Some(Ok(v))) == (200u16, BodyM::Text(t)),
        v matches Val::Int(i) ==> response_for(Some(Ok(v))) == (200u16, BodyM::Text(int_text(i as int))),
        v matches Val::Float(_, t) ==> response_for(Some(Ok(v))) == (200u16, BodyM::Text(t)),
        v matches Val::Bool(b) ==> response_for(Some(Ok(v))) == (200u16, BodyM::Text(
            if b {
                "true"@
            } else {
                "false"@
            },
        )),
        response_for(None).0 == 404,
        response_for(Some(Err(msg))) == (500u16, BodyM::Text("Error: "@ + msg)),
{
}

// ---------------------------------------------------------------------------
// Database cells.

/// A cell keeps its kind and its value: an integer cell becomes that integer,
/// a real cell a float with the same bits, a text cell a string with the same
/// text, a null cell null; only text and blob cells become strings.
pub proof fn law_cells_keep_their_kind(c: SqlCell)
    ensures
        c matches SqlCell::Integer(i) ==> cell_value(c) == Val::Int(i),
        c matches SqlCell::Real(f) ==> cell_value(c) matches Val::Float(bits, _) && bits == f.bits,
        c matches SqlCell::Text(t) ==> cell_value(c) == Val::Str(t@),
        c matches SqlCell::Blob(n) ==> cell_value(c) == Val::Str("<blob: "@ + nat_text(n as nat) + " bytes>"@),
        c is Null <==> cell_value(c) is Null,
        cell_value(c) is Str ==> (c is Text || c is Blob),
        (c is Integer || c is Real) ==> (cell_value(c) is Int || cell_value(c) is Float),
        cell_value(c) is Float <==> c is Real,
{
}

/// Each column of a row is found in its map under its name, with its cell's
/// value (the last column of a name wins).
pub proof fn law_row_columns(cols: Seq<(String, SqlCell)>, i: int)
    requires
        0 <= i < cols.len(),
        forall|j: int| i < j < cols.len() ==> cols[j].0@ != cols[i].0@,
    ensures
        lookup(row_entries(cols), cols[i].0@) == Some(cell_value(cols[i].1)),
    decreases cols.len(),
{
    let init = cols.drop_last();
    if i < cols.len() - 1 {
        assert(init[i] == cols[i]);
        assert forall|j: int| i < j < init.len() implies init[j].0@ != init[i].0@ by {
            assert(init[j] == cols[j]);
        }
        law_row_columns(init, i);
        law_dict_read_after_write(row_entries(init), cols.last().0@, cell_value(cols.last().1), cols[i].0@);
    } else {
        law_dict_read_after_write(row_entries(init), cols.last().0@, cell_value(cols.last().1), cols[i].0@);
    }
}

// ---------------------------------------------------------------------------
// More on operators.

proof fn lemma_seq_order_prefix(a: Seq<char>, b: Seq<char>, k: int)
    requires
        0 <= k <= a.len(),
        k <= b.len(),
        forall|j: int| 0 <= j < k ==> a[j] == b[j],
    ensures
        k == a.len() && k < b.len() ==> seq_order(a, b) == Order::Less,
        k < a.len() && k < b.len() && (a[k] as u32) < (b[k] as u32) ==> seq_order(a, b) == Order::Less,
    decreases k,
{
    if k > 0 {
        assert(a[0] == b[0]);
        lemma_seq_order_prefix(a.drop_first(), b.drop_first(), k - 1);
    }
}

/// Strings are ordered by their characters: a string comes before every longer
/// string that it begins, and before a string of the same beginning whose
/// next character has a greater code.
pub proof fn law_string_order(a: Seq<char>, b: Seq<char>, k: int, o: Oracle, pos: nat)
    requires
        0 <= k <= a.len(),
        k <= b.len(),
        forall|j: int| 0 <= j < k ==> a[j] == b[j],
        (k == a.len() && k < b.len()) || (k < a.len() && k < b.len() && (a[k] as u32) < (b[k] as u32)),
    ensures
        compared(BinaryOp::Lt, Val::Str(a), Val::Str(b), o, pos) == Some(true),
        compared(BinaryOp::Gt, Val::Str(b), Val::Str(a), o, pos) == Some(true),
{
    lemma_seq_order_prefix(a, b, k);
    lemma_seq_order_reversed(a, b);
}

/// `a != b` is the negation of `a == b`, for all values.
pub proof fn law_not_equal(a: Val, b: Val, o: Oracle, pos: nat)
    ensures
        compared(BinaryOp::Eq, a, b, o, pos) is Some,
        compared(BinaryOp::Ne, a, b, o, pos) == Some(compared(BinaryOp::Eq, a, b, o, pos) == Some(false)),
        apply_binary(BinaryOp::Eq, a, b, o, pos).1 == Seq::<Request>::empty(),
{
}

/// The integer that an operation gives, if it gives one.
pub open spec fn int_result(r: Result<Val, Fault>) -> Option<int> {
    match r {
        Ok(Val::Int(z)) => Some(z as int),
        _ => None,
    }
}

/// Integer `+`, `-` and `*` give the number that arithmetic gives, when it fits.
pub proof fn law_integer_arithmetic(x: i64, y: i64, o: Oracle, pos: nat)
    ensures
        i64::MIN <= x + y <= i64::MAX ==> int_result(apply_binary(BinaryOp::Add, Val::Int(x), Val::Int(y), o, pos).0)
            == Some(x + y),
        i64::MIN <= x - y <= i64::MAX ==> int_result(apply_binary(BinaryOp::Sub, Val::Int(x), Val::Int(y), o, pos).0)
            == Some(x - y),
        i64::MIN <= x * y <= i64::MAX ==> int_result(apply_binary(BinaryOp::Mul, Val::Int(x), Val::Int(y), o, pos).0)
            == Some(x * y),
        apply_binary(BinaryOp::Add, Val::Int(x), Val::Int(y), o, pos).0 == apply_binary(
            BinaryOp::Add,
            Val::Int(y),
            Val::Int(x),
            o,
            pos,
        ).0,
{
}

proof fn lemma_tight_survives_spaced(key: Seq<char>, r: Seq<char>, d: Seq<char>)
    requires
        forall|i: int| 0 <= i < key.len() ==> key[i] != '{' && key[i] != ' ',
    ensures
        replace_all(tight_placeholder(key) + r, spaced_placeholder(key), d) == tight_placeholder(key)
            + replace_all(r, spaced_placeholder(key), d),
{
    reveal_strlit("{{ ");
    reveal_strlit(" }}");
    reveal_strlit("{{");
    reveal_strlit("}}");
    let tp = tight_placeholder(key);
    let sp = spaced_placeholder(key);
    assert(sp.len() == key.len() + 6);
    assert(tp.len() == key.len() + 4);
    assert(sp[0] == '{' && sp[1] == '{' && sp[2] == ' ');
    assert(tp[0] == '{' && tp[1] == '{');
    assert(tp[2] != ' ' && tp[2] != '{') by {
        if key.len() > 0 {
            assert(tp[2] == key[0]);
        } else {
            assert(tp[2] == '}');
        }
    }
    let rest = tp.subrange(2, tp.len() as int);
    assert forall|i: int| 0 <= i < rest.len() implies rest[i] != sp[0] by {
        if i < key.len() {
            assert(rest[i] == key[i]);
        } else {
            assert(rest[i] == '}');
        }
    }
    lemma_replace_skips(rest, r, sp, d);
    let s0 = tp + r;
    let s1 = s0.drop_first();
    assert(s1 =~= tp.subrange(1, tp.len() as int) + r);
    assert(s1.drop_first() =~= rest + r);
    if s0.len() >= sp.len() {
        assert(s0.subrange(0, sp.len() as int)[2] == s0[2]);
        assert(s0.subrange(0, sp.len() as int) != sp);
    }
    if s1.len() >= sp.len() {
        assert(s1.subrange(0, sp.len() as int)[1] == s1[1]);
        assert(s1.subrange(0, sp.len() as int) != sp);
    }
    if s0.len() < sp.len() {
        assert(r.len() < sp.len());
        assert(replace_all(r, sp, d) == r);
    } else if s1.len() < sp.len() {
        assert(r.len() < sp.len());
        assert(replace_all(r, sp, d) == r);
        assert(replace_all(s0, sp, d) == seq![s0[0]] + s1);
        assert(seq![s0[0]] + s1 =~= s0);
    } else {
        assert(replace_all(s0, sp, d) == seq![s0[0]] + replace_all(s1, sp, d));
        assert(replace_all(s1, sp, d) == seq![s1[0]] + replace_all(rest + r, sp, d));
        assert(seq![s0[0]] + (seq![s1[0]] + (rest + replace_all(r, sp, d))) =~= tp + replace_all(r, sp, d));
    }
}

proof fn lemma_repeat_tight_survives(x: Seq<char>, key: Seq<char>, d: Seq<char>, n: nat)
    requires
        forall|i: int| 0 <= i < key.len() ==> key[i] != '{' && key[i] != ' ',
        forall|i: int| 0 <= i < x.len() ==> x[i] != '{',
    ensures
        replace_all(repeat(x + tight_placeholder(key), n), spaced_placeholder(key), d) == repeat(
            x + tight_placeholder(key),
            n,
        ),
    decreases n,
{
    reveal_strlit("{{ ");
    let sp = spaced_placeholder(key);
    let tp = tight_placeholder(key);
    assert(sp[0] == '{');
    if n > 0 {
        lemma_repeat_tight_survives(x, key, d, (n - 1) as nat);
        let rest = repeat(x + tp, (n - 1) as nat);
        assert(repeat(x + tp, n) =~= x + (tp + rest));
        lemma_replace_skips(x, tp + rest, sp, d);
        lemma_tight_survives_spaced(key, rest, d);
        assert(x + (tp + rest) =~= repeat(x + tp, n));
    }
}

/// Rendering fills placeholders written without spaces too: a template made
/// of `n` pieces, each some text without `{` followed by `{{key}}`, becomes
/// those pieces with the value's text in place of each (for a key without `{`
/// or spaces).
pub proof fn law_render_fills_tight_placeholders(x: Seq<char>, key: Seq<char>, v: Val, n: nat)
    requires
        forall|i: int| 0 <= i < x.len() ==> x[i] != '{',
        forall|i: int| 0 <= i < key.len() ==> key[i] != '{' && key[i] != ' ',
    ensures
        render_entries(repeat(x + tight_placeholder(key), n), seq![(key, v)]) == repeat(x + display(v), n),
{
    reveal_strlit("{{");
    let sp = spaced_placeholder(key);
    let tp = tight_placeholder(key);
    assert(tp[0] == '{');
    let t = repeat(x + tp, n);
    lemma_repeat_tight_survives(x, key, display(v), n);
    law_replace_every_occurrence(x, tp, display(v), n);
    let ctx = seq![(key, v)];
    assert(ctx.drop_last() =~= Seq::<(Seq<char>, Val)>::empty());
    assert(render_entries(t, ctx.drop_last()) == t);
    assert(ctx.last() == (key, v));
    assert(render_entries(t, ctx) == replace_all(replace_all(t, sp, display(v)), tp, display(v)));
}

} // verus!
