//! The values that database rows become.

use crate::model::{view_entries, view_values, Val};
use crate::text::{concat, copy_str};
use crate::value::{dict_insert, insert_entry, keys_distinct, nat_text, nat_to_text, FloatRepr, Value};
use vstd::prelude::*;

verus! {

broadcast use crate::model::group_value_views;

/// A cell of a result row, as the database gives it.
pub enum SqlCell {
    Null,
    Integer(i64),
    Real(FloatRepr),
    Text(String),
    /// A blob, by its length in bytes.
    Blob(usize),
}

/// The value of a cell; a blob is shown by its length.
pub open spec fn cell_value(c: SqlCell) -> Val {
    match c {
        SqlCell::Null => Val::Null,
        SqlCell::Integer(i) => Val::Int(i),
        SqlCell::Real(f) => Val::Float(f.bits, f.text@),
        SqlCell::Text(s) => Val::Str(s@),
        SqlCell::Blob(n) => Val::Str("<blob: "@ + nat_text(n as nat) + " bytes>"@),
    }
}

/// The map of a row: each column's name bound to its cell's value, a later
/// column replacing an earlier one of the same name.
pub open spec fn row_entries(cols: Seq<(String, SqlCell)>) -> Seq<(Seq<char>, Val)>
    decreases cols.len(),
{
    if cols.len() == 0 {
        Seq::empty()
    } else {
        insert_entry(row_entries(cols.drop_last()), cols.last().0@, cell_value(cols.last().1))
    }
}

/// The value of a cell (see `cell_value`).
pub fn cell_to_value(c: &SqlCell) -> (r: Value)
    ensures
        r@ == cell_value(*c),
{
    match c {
        SqlCell::Null => Value::Null,
        SqlCell::Integer(i) => Value::Int(*i),
        SqlCell::Real(f) => Value::Float(FloatRepr { bits: f.bits, text: copy_str(&f.text) }),
        SqlCell::Text(s) => Value::String(copy_str(s)),
        SqlCell::Blob(n) => {
            let digits = nat_to_text(*n as u64);
            let a = concat("<blob: ", digits.as_str());
            Value::String(concat(a.as_str(), " bytes>"))
        },
    }
}

/// The map that a row becomes (see `row_entries`).
pub fn row_to_value(cols: &Vec<(String, SqlCell)>) -> (r: Value)
    ensures
        r@ == Val::Dict(row_entries(cols@)),
        keys_distinct(row_entries(cols@)),
{
    let mut m: Vec<(String, Value)> = Vec::new();
    let mut i: usize = 0;
    assert(view_entries(m@) =~= Seq::<(Seq<char>, Val)>::empty());
    assert(cols@.subrange(0, 0) =~= Seq::<(String, SqlCell)>::empty());
    while i < cols.len()
        invariant
            i <= cols.len(),
            view_entries(m@) == row_entries(cols@.subrange(0, i as int)),
            keys_distinct(view_entries(m@)),
        decreases cols.len() - i,
    {
        assert(cols@.subrange(0, i + 1).drop_last() =~= cols@.subrange(0, i as int));
        dict_insert(&mut m, copy_str(&cols[i].0), cell_to_value(&cols[i].1));
        i = i + 1;
    }
    assert(cols@.subrange(0, cols.len() as int) =~= cols@);
    Value::Dict(m)
}

/// The list of maps that the rows of a query become, in order.
pub fn rows_to_value(rows: &Vec<Vec<(String, SqlCell)>>) -> (r: Value)
    ensures
        r@ == Val::List(rows@.map_values(|row: Vec<(String, SqlCell)>| Val::Dict(row_entries(row@)))),
{
    let ghost want = rows@.map_values(|row: Vec<(String, SqlCell)>| Val::Dict(row_entries(row@)));
    let mut out: Vec<Value> = Vec::new();
    let mut i: usize = 0;
    while i < rows.len()
        invariant
            i <= rows.len(),
            out.len() == i,
            want == rows@.map_values(|row: Vec<(String, SqlCell)>| Val::Dict(row_entries(row@))),
            forall|j: int| 0 <= j < i ==> #[trigger] view_values(out@)[j] == want[j],
        decreases rows.len() - i,
    {
        let v = row_to_value(&rows[i]);
        let ghost o0 = out@;
        out.push(v);
        assert(view_values(out@) == view_values(o0).push(v@));
        i = i + 1;
    }
    assert(view_values(out@) =~= want);
    Value::List(out)
}

} // verus!
