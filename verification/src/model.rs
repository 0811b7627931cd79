//! The mathematical model of runtime values.

use crate::ast::Stmt;
use crate::value::{Builtin, Value};
use vstd::prelude::*;

verus! {

/// The mathematical model of a value.
pub ghost enum Val {
    Int(i64),
    Float(u64, Seq<char>),
    Bool(bool),
    Str(Seq<char>),
    List(Seq<Val>),
    Dict(Seq<(Seq<char>, Val)>),
    Func(Seq<Seq<char>>, Seq<Stmt>),
    Builtin(Builtin),
    Null,
}

pub open spec fn view_values(s: Seq<Value>) -> Seq<Val>
    decreases s,
{
    if s.len() == 0 {
        Seq::empty()
    } else {
        view_values(s.drop_last()).push(view_value(s.last()))
    }
}

pub open spec fn view_entries(s: Seq<(String, Value)>) -> Seq<(Seq<char>, Val)>
    decreases s,
{
    if s.len() == 0 {
        Seq::empty()
    } else {
        view_entries(s.drop_last()).push((s.last().0@, view_value(s.last().1)))
    }
}

/// The texts of a sequence of strings.
pub open spec fn string_views(s: Seq<String>) -> Seq<Seq<char>> {
    s.map_values(|p: String| p@)
}

pub open spec fn view_value(v: Value) -> Val
    decreases v,
{
    match v {
        Value::Int(i) => Val::Int(i),
        Value::Float(f) => Val::Float(f.bits, f.text@),
        Value::Bool(b) => Val::Bool(b),
        Value::String(s) => Val::Str(s@),
        Value::List(l) => Val::List(view_values(l@)),
        Value::Dict(m) => Val::Dict(view_entries(m@)),
        Value::Function { params, body } => Val::Func(string_views(params@), (*body)@),
        Value::Builtin(b) => Val::Builtin(b),
        Value::Null => Val::Null,
    }
}

impl View for Value {
    type V = Val;

    open spec fn view(&self) -> Val {
        view_value(*self)
    }
}


pub broadcast proof fn lemma_view_values_len(s: Seq<Value>)
    ensures
        #[trigger] view_values(s).len() == s.len(),
    decreases s.len(),
{
    if s.len() > 0 {
        lemma_view_values_len(s.drop_last());
    }
}

pub broadcast proof fn lemma_view_values_index(s: Seq<Value>, i: int)
    requires
        0 <= i < s.len(),
    ensures
        #[trigger] view_values(s)[i] == view_value(s[i]),
    decreases s.len(),
{
    lemma_view_values_len(s.drop_last());
    if i < s.len() - 1 {
        lemma_view_values_index(s.drop_last(), i);
    }
}

pub broadcast proof fn lemma_view_entries_len(s: Seq<(String, Value)>)
    ensures
        #[trigger] view_entries(s).len() == s.len(),
    decreases s.len(),
{
    if s.len() > 0 {
        lemma_view_entries_len(s.drop_last());
    }
}

pub broadcast proof fn lemma_view_entries_index(s: Seq<(String, Value)>, i: int)
    requires
        0 <= i < s.len(),
    ensures
        #[trigger] view_entries(s)[i] == (s[i].0@, view_value(s[i].1)),
    decreases s.len(),
{
    lemma_view_entries_len(s.drop_last());
    if i < s.len() - 1 {
        lemma_view_entries_index(s.drop_last(), i);
    }
}

pub broadcast group group_value_views {
    lemma_view_values_len,
    lemma_view_values_index,
    lemma_view_entries_len,
    lemma_view_entries_index,
}


/// A sequence of values is determined by the values' models.
pub proof fn lemma_view_values_ext(a: Seq<Value>, b: Seq<Val>)
    requires
        a.len() == b.len(),
        forall|i: int| 0 <= i < a.len() ==> view_value(#[trigger] a[i]) == b[i],
    ensures
        view_values(a) == b,
{
    broadcast use group_value_views;

    assert(view_values(a) =~= b);
}

/// A sequence of entries is determined by the entries' models.
pub proof fn lemma_view_entries_ext(a: Seq<(String, Value)>, b: Seq<(Seq<char>, Val)>)
    requires
        a.len() == b.len(),
        forall|i: int| 0 <= i < a.len() ==> (#[trigger] a[i]).0@ == b[i].0 && view_value(a[i].1) == b[i].1,
    ensures
        view_entries(a) == b,
{
    broadcast use group_value_views;

    assert(view_entries(a) =~= b);
}

} // verus!
