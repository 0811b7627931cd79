//! Runtime values of NovaWeb and the operations on them.

use crate::ast::{stmts_eq, stmts_equal, Stmt};
use crate::model::{group_value_views, string_views, lemma_view_entries_ext, lemma_view_values_ext, view_entries, view_values, view_value, Val};
use crate::text::{compare_str, concat, copy_str, from_str, push_char, same_text, seq_order, Order};
use std::rc::Rc;
use vstd::prelude::*;

verus! {

broadcast use group_value_views;

/// A floating-point number: its IEEE 754 bits and the text by which it is shown.
pub struct FloatRepr {
    pub bits: u64,
    pub text: String,
}

/// The functions that the interpreter provides to every program.
#[derive(Clone, Copy, PartialEq, Eq, Structural, Debug)]
pub enum Builtin {
    Print,
    Render,
    ReadFile,
    Len,
    DbConnect,
    DbQuery,
    DbExecute,
}

pub enum Value {
    Int(i64),
    Float(FloatRepr),
    Bool(bool),
    String(String),
    List(Vec<Value>),
    /// A map from keys to values, in insertion order, each key once.
    Dict(Vec<(String, Value)>),
    Function { params: Vec<String>, body: Rc<Vec<Stmt>> },
    Builtin(Builtin),
    Null,
}

// ---------------------------------------------------------------------------
// Floating-point bits

/// The bits are those of +0.0 or -0.0.
pub open spec fn float_is_zero(bits: u64) -> bool {
    bits & 0x7fff_ffff_ffff_ffffu64 == 0
}

/// The bits are those of a NaN: all exponent bits set, a mantissa that is not zero.
pub open spec fn float_is_nan(bits: u64) -> bool {
    bits & 0x7ff0_0000_0000_0000u64 == 0x7ff0_0000_0000_0000u64 && bits & 0x000f_ffff_ffff_ffffu64
        != 0
}

/// IEEE 754 equality: NaN equals nothing, and +0.0 equals -0.0.
pub open spec fn float_eq(a: u64, b: u64) -> bool {
    !float_is_nan(a) && !float_is_nan(b) && (a == b || (float_is_zero(a) && float_is_zero(b)))
}

fn float_is_zero_exec(bits: u64) -> (r: bool)
    ensures
        r == float_is_zero(bits),
{
    bits & 0x7fff_ffff_ffff_ffffu64 == 0
}

fn float_eq_exec(a: u64, b: u64) -> (r: bool)
    ensures
        r == float_eq(a, b),
{
    let a_nan = a & 0x7ff0_0000_0000_0000u64 == 0x7ff0_0000_0000_0000u64 && a
        & 0x000f_ffff_ffff_ffffu64 != 0;
    let b_nan = b & 0x7ff0_0000_0000_0000u64 == 0x7ff0_0000_0000_0000u64 && b
        & 0x000f_ffff_ffff_ffffu64 != 0;
    !a_nan && !b_nan && (a == b || (float_is_zero_exec(a) && float_is_zero_exec(b)))
}

// ---------------------------------------------------------------------------
// Truthiness

/// When a value counts as true in a condition.
pub open spec fn truthy(v: Val) -> bool {
    match v {
        Val::Bool(b) => b,
        Val::Null => false,
        Val::Int(i) => i != 0,
        Val::Float(bits, _) => !float_is_zero(bits),
        Val::Str(s) => s.len() > 0,
        Val::List(l) => l.len() > 0,
        Val::Dict(m) => m.len() > 0,
        _ => true,
    }
}

// ---------------------------------------------------------------------------
// Arithmetic

/// Why an arithmetic operation gives no value.
#[derive(Clone, Copy, PartialEq, Eq, Structural, Debug)]
pub enum ArithError {
    /// The operand types do not support the operation.
    InvalidTypes,
    /// An integer division by zero.
    DivisionByZero,
    /// The operation is floating-point work, which the host performs.
    NeedsFloat,
}

pub open spec fn view_result(r: Result<Value, ArithError>) -> Result<Val, ArithError> {
    match r {
        Ok(v) => Ok(v@),
        Err(e) => Err(e),
    }
}

pub open spec fn fits_i64(x: int) -> bool {
    i64::MIN <= x <= i64::MAX
}

/// The two values are numbers of which at least one is a float.
pub open spec fn mixed_float(a: Val, b: Val) -> bool {
    (a is Float && (b is Float || b is Int)) || (a is Int && b is Float)
}

pub open spec fn spec_add(a: Val, b: Val) -> Result<Val, ArithError> {
    if mixed_float(a, b) {
        Err(ArithError::NeedsFloat)
    } else {
        match (a, b) {
            (Val::Int(x), Val::Int(y)) => Ok(Val::Int((x + y) as i64)),
            (Val::Str(x), Val::Str(y)) => Ok(Val::Str(x + y)),
            _ => Err(ArithError::InvalidTypes),
        }
    }
}

pub open spec fn spec_sub(a: Val, b: Val) -> Result<Val, ArithError> {
    match (a, b) {
        (Val::Int(x), Val::Int(y)) => Ok(Val::Int((x - y) as i64)),
        (Val::Float(..), Val::Float(..)) => Err(ArithError::NeedsFloat),
        _ => Err(ArithError::InvalidTypes),
    }
}

pub open spec fn spec_mul(a: Val, b: Val) -> Result<Val, ArithError> {
    match (a, b) {
        (Val::Int(x), Val::Int(y)) => Ok(Val::Int((x * y) as i64)),
        (Val::Float(..), Val::Float(..)) => Err(ArithError::NeedsFloat),
        _ => Err(ArithError::InvalidTypes),
    }
}

/// Integer division that rounds toward zero.
pub open spec fn trunc_div(a: int, b: int) -> int {
    let q = (if a >= 0 { a } else { -a }) / (if b >= 0 { b } else { -b });
    if (a < 0) == (b < 0) { q } else { -q }
}

pub open spec fn spec_div(a: Val, b: Val) -> Result<Val, ArithError> {
    match (a, b) {
        (Val::Int(x), Val::Int(y)) => if y == 0 {
            Err(ArithError::DivisionByZero)
        } else {
            Ok(Val::Int(trunc_div(x as int, y as int) as i64))
        },
        (Val::Float(..), Val::Float(..)) => Err(ArithError::NeedsFloat),
        _ => Err(ArithError::InvalidTypes),
    }
}

pub open spec fn spec_negate(a: Val) -> Result<Val, ArithError> {
    match a {
        Val::Int(x) => Ok(Val::Int((-x) as i64)),
        Val::Float(..) => Err(ArithError::NeedsFloat),
        _ => Err(ArithError::InvalidTypes),
    }
}

/// The integer operation would leave the range of `i64` (std panics there).
pub open spec fn add_overflows(a: Val, b: Val) -> bool {
    match (a, b) {
        (Val::Int(x), Val::Int(y)) => !fits_i64(x + y),
        _ => false,
    }
}

pub open spec fn sub_overflows(a: Val, b: Val) -> bool {
    match (a, b) {
        (Val::Int(x), Val::Int(y)) => !fits_i64(x - y),
        _ => false,
    }
}

pub open spec fn mul_overflows(a: Val, b: Val) -> bool {
    match (a, b) {
        (Val::Int(x), Val::Int(y)) => !fits_i64(x * y),
        _ => false,
    }
}

pub open spec fn div_overflows(a: Val, b: Val) -> bool {
    match (a, b) {
        (Val::Int(x), Val::Int(y)) => x == i64::MIN && y == -1,
        _ => false,
    }
}

pub open spec fn negate_overflows(a: Val) -> bool {
    match a {
        Val::Int(x) => x == i64::MIN,
        _ => false,
    }
}

// ---------------------------------------------------------------------------
// Order

pub open spec fn int_order(x: int, y: int) -> Order {
    if x < y {
        Order::Less
    } else if x == y {
        Order::Equal
    } else {
        Order::Greater
    }
}

pub open spec fn bool_order(x: bool, y: bool) -> Order {
    if x == y {
        Order::Equal
    } else if !x {
        Order::Less
    } else {
        Order::Greater
    }
}

/// How two values are ordered: numbers among numbers, strings among strings,
/// booleans among booleans; other pairs are unordered.
pub open spec fn spec_compare(a: Val, b: Val) -> Result<Option<Order>, ArithError> {
    if mixed_float(a, b) {
        Err(ArithError::NeedsFloat)
    } else {
        match (a, b) {
            (Val::Int(x), Val::Int(y)) => Ok(Some(int_order(x as int, y as int))),
            (Val::Str(x), Val::Str(y)) => Ok(Some(seq_order(x, y))),
            (Val::Bool(x), Val::Bool(y)) => Ok(Some(bool_order(x, y))),
            _ => Ok(None),
        }
    }
}

// ---------------------------------------------------------------------------
// Dictionaries

/// The first position of `key` among the entries.
pub open spec fn find_key(m: Seq<(Seq<char>, Val)>, key: Seq<char>) -> Option<nat>
    decreases m.len(),
{
    if m.len() == 0 {
        None
    } else if m[0].0 == key {
        Some(0)
    } else {
        match find_key(m.drop_first(), key) {
            Some(i) => Some(i + 1),
            None => None,
        }
    }
}

/// The value stored under `key`.
pub open spec fn lookup(m: Seq<(Seq<char>, Val)>, key: Seq<char>) -> Option<Val> {
    match find_key(m, key) {
        Some(i) => Some(m[i as int].1),
        None => None,
    }
}

/// `m` with `key` bound to `v`: the entry of `key` is replaced in place, or a new
/// entry comes last.
pub open spec fn insert_entry(m: Seq<(Seq<char>, Val)>, key: Seq<char>, v: Val) -> Seq<(Seq<char>, Val)> {
    match find_key(m, key) {
        Some(i) => m.update(i as int, (key, v)),
        None => m.push((key, v)),
    }
}

pub proof fn lemma_find_key(m: Seq<(Seq<char>, Val)>, key: Seq<char>)
    ensures
        match find_key(m, key) {
            Some(i) => i < m.len() && m[i as int].0 == key && forall|j: int| 0 <= j < i ==> m[j].0 != key,
            None => forall|j: int| 0 <= j < m.len() ==> m[j].0 != key,
        },
    decreases m.len(),
{
    if m.len() > 0 {
        lemma_find_key(m.drop_first(), key);
        if m[0].0 != key {
            assert forall|j: int| 1 <= j < m.len() implies m[j].0 == m.drop_first()[j - 1].0 by {}
        }
    }
}

/// No key occurs twice among the entries.
pub open spec fn keys_distinct(m: Seq<(Seq<char>, Val)>) -> bool {
    forall|i: int, j: int| 0 <= i < j < m.len() ==> #[trigger] m[i].0 != #[trigger] m[j].0
}

/// Binding a key keeps the keys distinct.
pub proof fn lemma_insert_distinct(m: Seq<(Seq<char>, Val)>, key: Seq<char>, v: Val)
    ensures
        keys_distinct(m) ==> keys_distinct(insert_entry(m, key, v)),
        insert_entry(m, key, v).len() >= m.len(),
{
    lemma_find_key(m, key);
    let m2 = insert_entry(m, key, v);
    if keys_distinct(m) {
        match find_key(m, key) {
            Some(k) => {
                assert forall|i: int, j: int| 0 <= i < j < m2.len() implies #[trigger] m2[i].0 != #[trigger] m2[j].0 by {
                    assert(m2[i].0 == m[i].0);
                    assert(m2[j].0 == m[j].0);
                }
            },
            None => {
                assert forall|i: int, j: int| 0 <= i < j < m2.len() implies #[trigger] m2[i].0 != #[trigger] m2[j].0 by {
                    if j < m.len() {
                        assert(m2[i] == m[i] && m2[j] == m[j]);
                    } else {
                        assert(m2[j].0 == key);
                        assert(m2[i] == m[i]);
                    }
                }
            },
        }
    }
}

/// The position of `key` among the entries of a dictionary.
pub fn dict_find(m: &Vec<(String, Value)>, key: &str) -> (r: Option<usize>)
    ensures
        match r {
            Some(i) => i < m.len() && find_key(view_entries(m@), key@) == Some(i as nat),
            None => find_key(view_entries(m@), key@) is None,
        },
{
    let ghost vm = view_entries(m@);
    proof {
        lemma_find_key(vm, key@);
    }
    let mut i: usize = 0;
    while i < m.len()
        invariant
            vm == view_entries(m@),
            vm.len() == m@.len(),
            i <= m.len(),
            forall|j: int| 0 <= j < i ==> view_entries(m@)[j].0 != key@,
        decreases m.len() - i,
    {
        let same = same_text(m[i].0.as_str(), key);
        assert(same == (m@[i as int].0@ == key@));
        assert(view_entries(m@)[i as int] == (m@[i as int].0@, view_value(m@[i as int].1)));
        if same {
            proof {
                lemma_find_key(vm, key@);
                assert(view_entries(m@)[i as int].0 == key@);
                match find_key(vm, key@) {
                    Some(k) => {
                        if k < i {
                        } else if k > i {
                        }
                    },
                    None => {},
                }
            }
            return Some(i);
        }
        i = i + 1;
    }
    None
}

/// The value stored under `key`, copied.
pub fn dict_get(m: &Vec<(String, Value)>, key: &str) -> (r: Option<Value>)
    ensures
        match r {
            Some(v) => lookup(view_entries(m@), key@) == Some(v@),
            None => lookup(view_entries(m@), key@) is None,
        },
{
    match dict_find(m, key) {
        Some(i) => Some(m[i].1.copy()),
        None => None,
    }
}

/// Binds `key` to `v`.
pub fn dict_insert(m: &mut Vec<(String, Value)>, key: String, v: Value)
    ensures
        view_entries(final(m)@) == insert_entry(view_entries(old(m)@), key@, v@),
        keys_distinct(view_entries(old(m)@)) ==> keys_distinct(view_entries(final(m)@)),
{
    proof {
        lemma_insert_distinct(view_entries(m@), key@, v@);
    }
    let ghost old_view = view_entries(m@);
    let ghost kv = key@;
    let ghost vv = v@;
    match dict_find(m, key.as_str()) {
        Some(i) => {
            m.set(i, (key, v));
            proof {
                lemma_view_entries_ext(m@, old_view.update(i as int, (kv, vv)));
            }
        },
        None => {
            m.push((key, v));
            proof {
                lemma_view_entries_ext(m@, old_view.push((kv, vv)));
            }
        },
    }
}

/// `a / b`, rounded toward zero, as Rust's `/` on `i64` computes it.
fn div_toward_zero(a: i64, b: i64) -> (q: i64)
    requires
        b != 0,
        !(a == i64::MIN && b == -1),
    ensures
        q == trunc_div(a as int, b as int),
{
    let ua: u64 = if a >= 0 { a as u64 } else { (0i128 - a as i128) as u64 };
    let ub: u64 = if b >= 0 { b as u64 } else { (0i128 - b as i128) as u64 };
    let m: u64 = ua / ub;
    assert(m <= ua) by (nonlinear_arith)
        requires
            m == ua / ub,
            ub >= 1,
    ;
    if ub == 1 {
        assert(m == ua) by (nonlinear_arith)
            requires
                m == ua / ub,
                ub == 1,
        ;
    } else {
        assert(m <= ua / 2) by (nonlinear_arith)
            requires
                m == ua / ub,
                ub >= 2,
        ;
    }
    if (a < 0) == (b < 0) {
        m as i64
    } else {
        (0i128 - m as i128) as i64
    }
}

// ---------------------------------------------------------------------------
// Equality

/// Equality of values: numbers by IEEE 754 within their kind, strings by text,
/// lists element by element, dictionaries as maps (whatever the order of their
/// entries), functions by parameters and body as written, builtins by identity.
/// Values of different kinds are unequal.
pub open spec fn val_eq(a: Val, b: Val) -> bool
    decreases a,
{
    match (a, b) {
        (Val::Int(x), Val::Int(y)) => x == y,
        (Val::Float(x, _), Val::Float(y, _)) => float_eq(x, y),
        (Val::Bool(x), Val::Bool(y)) => x == y,
        (Val::Str(x), Val::Str(y)) => x == y,
        (Val::List(x), Val::List(y)) => x.len() == y.len() && forall|i: int|
            0 <= i < x.len() ==> val_eq(x[i], y[i]),
        (Val::Dict(x), Val::Dict(y)) => x.len() == y.len() && forall|i: int|
            #![trigger x[i]]
            0 <= i < x.len() ==> match lookup(y, x[i].0) {
                Some(w) => val_eq(x[i].1, w),
                None => false,
            },
        (Val::Func(p, body), Val::Func(q, body2)) => p == q && stmts_eq(body, body2),
        (Val::Builtin(x), Val::Builtin(y)) => x == y,
        (Val::Null, Val::Null) => true,
        _ => false,
    }
}

fn strings_equal(a: &Vec<String>, b: &Vec<String>) -> (r: bool)
    ensures
        r == (string_views(a@) == string_views(b@)),
{
    if a.len() != b.len() {
        assert(string_views(a@).len() != string_views(b@).len());
        return false;
    }
    let mut i: usize = 0;
    while i < a.len()
        invariant
            a.len() == b.len(),
            i <= a.len(),
            forall|j: int| 0 <= j < i ==> a@[j]@ == b@[j]@,
        decreases a.len() - i,
    {
        if !same_text(a[i].as_str(), b[i].as_str()) {
            assert(string_views(a@)[i as int] != string_views(b@)[i as int]);
            return false;
        }
        i = i + 1;
    }
    assert(string_views(a@) =~= string_views(b@));
    true
}

// ---------------------------------------------------------------------------
// Text

pub open spec fn digit_char(d: int) -> char {
    if d == 0 {
        '0'
    } else if d == 1 {
        '1'
    } else if d == 2 {
        '2'
    } else if d == 3 {
        '3'
    } else if d == 4 {
        '4'
    } else if d == 5 {
        '5'
    } else if d == 6 {
        '6'
    } else if d == 7 {
        '7'
    } else if d == 8 {
        '8'
    } else {
        '9'
    }
}

/// Decimal digits of a natural number.
pub open spec fn nat_text(n: nat) -> Seq<char>
    decreases n,
{
    if n < 10 {
        seq![digit_char(n as int)]
    } else {
        nat_text(n / 10).push(digit_char((n % 10) as int))
    }
}

/// Decimal text of an integer, with a leading `-` when it is negative.
pub open spec fn int_text(i: int) -> Seq<char> {
    if i < 0 {
        seq!['-'] + nat_text((-i) as nat)
    } else {
        nat_text(i as nat)
    }
}

/// How a value is shown: lists as `[a, b]`, dictionaries as `{k: v}` with
/// their entries sorted by key.
pub open spec fn display(v: Val) -> Seq<char>
    decreases v,
{
    match v {
        Val::Int(i) => int_text(i as int),
        Val::Float(_, t) => t,
        Val::Bool(b) => if b {
            "true"@
        } else {
            "false"@
        },
        Val::Str(s) => s,
        Val::List(l) => "["@ + join_items(l) + "]"@,
        Val::Dict(m) => "{"@ + join_pairs(sort_pairs(entry_texts(m))) + "}"@,
        Val::Func(..) => "<function>"@,
        Val::Builtin(_) => "<builtin>"@,
        Val::Null => "null"@,
    }
}

/// The items shown one after the other, separated by `, `.
pub open spec fn join_items(l: Seq<Val>) -> Seq<char>
    decreases l,
{
    if l.len() == 0 {
        Seq::empty()
    } else if l.len() == 1 {
        display(l[0])
    } else {
        join_items(l.drop_last()) + ", "@ + display(l.last())
    }
}

/// Each entry's key with the text of its value.
pub open spec fn entry_texts(m: Seq<(Seq<char>, Val)>) -> Seq<(Seq<char>, Seq<char>)>
    decreases m,
{
    if m.len() == 0 {
        Seq::empty()
    } else {
        entry_texts(m.drop_last()).push((m.last().0, display(m.last().1)))
    }
}

/// `e` put before the first pair whose key is greater.
pub open spec fn insert_pair(s: Seq<(Seq<char>, Seq<char>)>, e: (Seq<char>, Seq<char>)) -> Seq<
    (Seq<char>, Seq<char>),
>
    decreases s.len(),
{
    if s.len() == 0 {
        seq![e]
    } else if seq_order(s[0].0, e.0) == Order::Greater {
        seq![e] + s
    } else {
        seq![s[0]] + insert_pair(s.drop_first(), e)
    }
}

/// The pairs sorted by key (stably).
pub open spec fn sort_pairs(s: Seq<(Seq<char>, Seq<char>)>) -> Seq<(Seq<char>, Seq<char>)>
    decreases s.len(),
{
    if s.len() == 0 {
        Seq::empty()
    } else {
        insert_pair(sort_pairs(s.drop_last()), s.last())
    }
}

/// `key: value` for each pair, separated by `, `.
pub open spec fn join_pairs(s: Seq<(Seq<char>, Seq<char>)>) -> Seq<char>
    decreases s.len(),
{
    if s.len() == 0 {
        Seq::empty()
    } else if s.len() == 1 {
        s[0].0 + ": "@ + s[0].1
    } else {
        join_pairs(s.drop_last()) + ", "@ + s.last().0 + ": "@ + s.last().1
    }
}

pub open spec fn pair_views(v: Seq<(String, String)>) -> Seq<(Seq<char>, Seq<char>)> {
    v.map_values(|p: (String, String)| (p.0@, p.1@))
}

fn digit(d: u64) -> (c: char)
    requires
        d < 10,
    ensures
        c == digit_char(d as int),
{
    if d == 0 {
        '0'
    } else if d == 1 {
        '1'
    } else if d == 2 {
        '2'
    } else if d == 3 {
        '3'
    } else if d == 4 {
        '4'
    } else if d == 5 {
        '5'
    } else if d == 6 {
        '6'
    } else if d == 7 {
        '7'
    } else if d == 8 {
        '8'
    } else {
        '9'
    }
}

pub fn nat_to_text(n: u64) -> (r: String)
    ensures
        r@ == nat_text(n as nat),
    decreases n,
{
    if n < 10 {
        let mut r = String::new();
        push_char(&mut r, digit(n));
        r
    } else {
        let mut r = nat_to_text(n / 10);
        push_char(&mut r, digit(n % 10));
        r
    }
}

/// Decimal text of an integer.
pub fn int_to_text(i: i64) -> (r: String)
    ensures
        r@ == int_text(i as int),
{
    if i < 0 {
        let magnitude: u64 = (0i128 - i as i128) as u64;
        assert(magnitude as int == -(i as int));
        proof {
            reveal_strlit("-");
        }
        let digits = nat_to_text(magnitude);
        concat("-", digits.as_str())
    } else {
        nat_to_text(i as u64)
    }
}

proof fn lemma_insert_pair(s: Seq<(Seq<char>, Seq<char>)>, e: (Seq<char>, Seq<char>), j: int)
    requires
        0 <= j <= s.len(),
        forall|k: int| 0 <= k < j ==> seq_order(s[k].0, e.0) != Order::Greater,
        j < s.len() ==> seq_order(s[j].0, e.0) == Order::Greater,
    ensures
        insert_pair(s, e) == s.subrange(0, j) + seq![e] + s.subrange(j, s.len() as int),
    decreases s.len(),
{
    if s.len() == 0 {
        assert(s.subrange(0, j) + seq![e] + s.subrange(j, s.len() as int) =~= seq![e]);
    } else if j == 0 {
        assert(s.subrange(0, j) + seq![e] + s.subrange(j, s.len() as int) =~= seq![e] + s);
    } else {
        let t = s.drop_first();
        assert forall|k: int| 0 <= k < j - 1 implies seq_order(t[k].0, e.0) != Order::Greater by {
            assert(t[k] == s[k + 1]);
        }
        if j - 1 < t.len() {
            assert(t[j - 1] == s[j]);
        }
        lemma_insert_pair(t, e, j - 1);
        assert(s.subrange(0, j) + seq![e] + s.subrange(j, s.len() as int) =~= seq![s[0]] + (
        t.subrange(0, j - 1) + seq![e] + t.subrange(j - 1, t.len() as int)));
    }
}

/// Sorts pairs by key, as `sort_pairs` does.
fn sort_by_key(v: Vec<(String, String)>) -> (r: Vec<(String, String)>)
    ensures
        pair_views(r@) == sort_pairs(pair_views(v@)),
{
    let mut sorted: Vec<(String, String)> = Vec::new();
    let mut i: usize = 0;
    while i < v.len()
        invariant
            i <= v.len(),
            pair_views(sorted@) == sort_pairs(pair_views(v@.subrange(0, i as int))),
        decreases v.len() - i,
    {
        let ghost e = (v@[i as int].0@, v@[i as int].1@);
        let ghost before = pair_views(sorted@);
        let mut j: usize = 0;
        while j < sorted.len() && compare_str(sorted[j].0.as_str(), v[i].0.as_str()) != Order::Greater
            invariant
                i < v.len(),
                e == (v@[i as int].0@, v@[i as int].1@),
                before == pair_views(sorted@),
                j <= sorted.len(),
                forall|k: int| 0 <= k < j ==> seq_order(before[k].0, e.0) != Order::Greater,
            decreases sorted.len() - j,
        {
            j = j + 1;
        }
        proof {
            lemma_insert_pair(before, e, j as int);
        }
        let k = copy_str(&v[i].0);
        let t = copy_str(&v[i].1);
        sorted.insert(j, (k, t));
        proof {
            assert(pair_views(sorted@) =~= before.subrange(0, j as int) + seq![e] + before.subrange(
                j as int,
                before.len() as int,
            ));
            assert(pair_views(v@.subrange(0, i + 1)).drop_last() =~= pair_views(v@.subrange(0, i as int)));
            assert(pair_views(v@.subrange(0, i + 1)).last() == e);
        }
        i = i + 1;
    }
    assert(v@.subrange(0, v.len() as int) =~= v@);
    sorted
}

fn join_pair_texts(v: &Vec<(String, String)>) -> (r: String)
    ensures
        r@ == join_pairs(pair_views(v@)),
{
    let mut r = String::new();
    let mut i: usize = 0;
    while i < v.len()
        invariant
            i <= v.len(),
            r@ == join_pairs(pair_views(v@.subrange(0, i as int))),
        decreases v.len() - i,
    {
        let ghost prev = pair_views(v@.subrange(0, i as int));
        if i > 0 {
            r.append(", ");
        }
        r.append(v[i].0.as_str());
        r.append(": ");
        r.append(v[i].1.as_str());
        proof {
            let cur = pair_views(v@.subrange(0, i + 1));
            assert(cur.drop_last() =~= prev);
            assert(cur.last() == (v@[i as int].0@, v@[i as int].1@));
            if i == 0 {
                assert(cur.len() == 1);
                assert(prev.len() == 0);
            }
        }
        i = i + 1;
    }
    assert(v@.subrange(0, v.len() as int) =~= v@);
    r
}

impl Value {
    /// Whether `self == other` holds in a program (see `val_eq`).
    pub fn equals(&self, other: &Value) -> (r: bool)
        ensures
            r == val_eq(self@, other@),
        decreases self,
    {
        match (self, other) {
            (Value::Int(a), Value::Int(b)) => *a == *b,
            (Value::Float(a), Value::Float(b)) => float_eq_exec(a.bits, b.bits),
            (Value::Bool(a), Value::Bool(b)) => *a == *b,
            (Value::String(a), Value::String(b)) => same_text(a.as_str(), b.as_str()),
            (Value::List(a), Value::List(b)) => {
                if a.len() != b.len() {
                    assert(view_values(a@).len() != view_values(b@).len());
                    return false;
                }
                let mut i: usize = 0;
                while i < a.len()
                    invariant
                        *self == Value::List(*a),
                        *other == Value::List(*b),
                        a.len() == b.len(),
                        i <= a.len(),
                        forall|j: int| 0 <= j < i ==> val_eq(view_value(a@[j]), view_value(b@[j])),
                    decreases a.len() - i,
                {
                    proof {
                        assert(decreases_to!(*self => (*self)->List_0));
                        assert(decreases_to!(*a => (*a)[i as int]));
                    }
                    if !a[i].equals(&b[i]) {
                        assert(!val_eq(view_values(a@)[i as int], view_values(b@)[i as int]));
                        return false;
                    }
                    i = i + 1;
                }
                assert forall|j: int| 0 <= j < view_values(a@).len() implies val_eq(
                    view_values(a@)[j],
                    view_values(b@)[j],
                ) by {}
                assert(view_values(a@).len() == view_values(b@).len());
                assert(val_eq(self@, other@));
                true
            },
            (Value::Dict(a), Value::Dict(b)) => {
                if a.len() != b.len() {
                    assert(view_entries(a@).len() != view_entries(b@).len());
                    return false;
                }
                let mut i: usize = 0;
                while i < a.len()
                    invariant
                        *self == Value::Dict(*a),
                        *other == Value::Dict(*b),
                        a.len() == b.len(),
                        i <= a.len(),
                        forall|j: int|
                            #![trigger view_entries(a@)[j]]
                            0 <= j < i ==> match lookup(view_entries(b@), view_entries(a@)[j].0) {
                                Some(w) => val_eq(view_entries(a@)[j].1, w),
                                None => false,
                            },
                    decreases a.len() - i,
                {
                    proof {
                        assert(decreases_to!(*self => (*self)->Dict_0));
                        assert(decreases_to!(*a => (*a)[i as int]));
                        assert(decreases_to!((*a)[i as int] => (*a)[i as int].1));
                    }
                    match dict_find(b, a[i].0.as_str()) {
                        Some(k) => {
                            assert(view_entries(b@)[k as int].1 == view_value(b@[k as int].1));
                            if !a[i].1.equals(&b[k].1) {
                                assert(view_entries(a@)[i as int] == (a@[i as int].0@, view_value(a@[i as int].1)));
                                return false;
                            }
                        },
                        None => {
                            assert(view_entries(a@)[i as int] == (a@[i as int].0@, view_value(a@[i as int].1)));
                            return false;
                        },
                    }
                    assert(view_entries(a@)[i as int] == (a@[i as int].0@, view_value(a@[i as int].1)));
                    i = i + 1;
                }
                assert(val_eq(self@, other@));
                true
            },
            (Value::Function { params, body }, Value::Function { params: params2, body: body2 }) => {
                let r = strings_equal(params, params2) && stmts_equal(body, body2);
                assert(r == val_eq(self@, other@));
                r
            },
            (Value::Builtin(a), Value::Builtin(b)) => *a == *b,
            (Value::Null, Value::Null) => true,
            _ => false,
        }
    }

    /// The text by which the value is shown (see `display`).
    pub fn to_text(&self) -> (r: String)
        ensures
            r@ == display(self@),
        decreases self,
    {
        match self {
            Value::Int(i) => int_to_text(*i),
            Value::Float(f) => copy_str(&f.text),
            Value::Bool(b) => if *b {
                from_str("true")
            } else {
                from_str("false")
            },
            Value::String(s) => copy_str(s),
            Value::List(l) => {
                let mut r = String::new();
                let mut i: usize = 0;
                while i < l.len()
                    invariant
                        *self == Value::List(*l),
                        i <= l.len(),
                        r@ == join_items(view_values(l@).subrange(0, i as int)),
                    decreases l.len() - i,
                {
                    proof {
                        assert(decreases_to!(*self => (*self)->List_0));
                        assert(decreases_to!(*l => (*l)[i as int]));
                    }
                    let ghost prev = view_values(l@).subrange(0, i as int);
                    if i > 0 {
                        r.append(", ");
                    }
                    let t = l[i].to_text();
                    r.append(t.as_str());
                    proof {
                        let cur = view_values(l@).subrange(0, i + 1);
                        assert(cur.drop_last() =~= prev);
                        assert(cur.last() == view_value(l@[i as int]));
                        if i == 0 {
                            assert(cur.len() == 1);
                            assert(prev.len() == 0);
                        }
                    }
                    i = i + 1;
                }
                assert(view_values(l@).subrange(0, l.len() as int) =~= view_values(l@));
                let open = from_str("[");
                let mut out = concat(open.as_str(), r.as_str());
                out.append("]");
                out
            },
            Value::Dict(m) => {
                let mut texts: Vec<(String, String)> = Vec::new();
                let mut i: usize = 0;
                while i < m.len()
                    invariant
                        *self == Value::Dict(*m),
                        i <= m.len(),
                        pair_views(texts@) == entry_texts(view_entries(m@).subrange(0, i as int)),
                    decreases m.len() - i,
                {
                    proof {
                        assert(decreases_to!(*self => (*self)->Dict_0));
                        assert(decreases_to!(*m => (*m)[i as int]));
                        assert(decreases_to!((*m)[i as int] => (*m)[i as int].1));
                    }
                    let ghost prev = view_entries(m@).subrange(0, i as int);
                    let ghost old_texts = texts@;
                    let k = copy_str(&m[i].0);
                    let t = m[i].1.to_text();
                    texts.push((k, t));
                    proof {
                        let cur = view_entries(m@).subrange(0, i + 1);
                        assert(cur.drop_last() =~= prev);
                        assert(texts@.drop_last() =~= old_texts);
                        assert(pair_views(texts@) =~= pair_views(old_texts).push(
                            (m@[i as int].0@, display(view_value(m@[i as int].1))),
                        ));
                    }
                    i = i + 1;
                }
                assert(view_entries(m@).subrange(0, m.len() as int) =~= view_entries(m@));
                let sorted = sort_by_key(texts);
                let body = join_pair_texts(&sorted);
                let open = from_str("{");
                let mut out = concat(open.as_str(), body.as_str());
                out.append("}");
                out
            },
            Value::Function { .. } => from_str("<function>"),
            Value::Builtin(_) => from_str("<builtin>"),
            Value::Null => from_str("null"),
        }
    }
}

/// Shares a function body (std's `Rc::clone`).
///
/// Trusted: the copy points at the same body, as std documents.
#[verifier::external_body]
pub(crate) fn share_body(b: &Rc<Vec<Stmt>>) -> (r: Rc<Vec<Stmt>>)
    ensures
        r == *b,
{
    Rc::clone(b)
}

fn copy_strings(v: &Vec<String>) -> (r: Vec<String>)
    ensures
        string_views(r@) == string_views(v@),
{
    let mut r: Vec<String> = Vec::new();
    let mut i: usize = 0;
    while i < v.len()
        invariant
            i <= v.len(),
            r@.len() == i,
            forall|j: int| 0 <= j < i ==> r@[j]@ == v@[j]@,
        decreases v.len() - i,
    {
        r.push(copy_str(&v[i]));
        i = i + 1;
    }
    assert(string_views(r@) =~= string_views(v@));
    r
}

impl Value {
    /// Whether the value counts as true in a condition.
    pub fn is_truthy(&self) -> (r: bool)
        ensures
            r == truthy(self@),
    {
            match self {
            Value::Bool(b) => *b,
            Value::Null => false,
            Value::Int(i) => *i != 0,
            Value::Float(f) => !float_is_zero_exec(f.bits),
            Value::String(s) => !s.as_str().is_empty(),
            Value::List(l) => l.len() != 0,
            Value::Dict(m) => m.len() != 0,
            _ => true,
        }
    }

    /// Whether the value is null.
    pub fn is_null(&self) -> (r: bool)
        ensures
            r == (self@ is Null),
    {
        match self {
            Value::Null => true,
            _ => false,
        }
    }

    /// A copy of the value.
    pub fn copy(&self) -> (r: Value)
        ensures
            r@ == self@,
        decreases self,
    {
            match self {
            Value::Int(i) => Value::Int(*i),
            Value::Float(f) => Value::Float(FloatRepr { bits: f.bits, text: copy_str(&f.text) }),
            Value::Bool(b) => Value::Bool(*b),
            Value::String(s) => Value::String(copy_str(s)),
            Value::List(l) => {
                let mut r: Vec<Value> = Vec::new();
                let mut i: usize = 0;
                while i < l.len()
                    invariant
                        *self == Value::List(*l),
                        i <= l.len(),
                        r@.len() == i,
                        forall|j: int| 0 <= j < i ==> view_value(#[trigger] r@[j]) == view_value(l@[j]),
                    decreases l.len() - i,
                {
                    proof {
                        assert(decreases_to!(*self => (*self)->List_0));
                        assert(decreases_to!(*l => (*l)[i as int]));
                        assert(decreases_to!(*self => (*l)[i as int]));
                    }
                    r.push(l[i].copy());
                    i = i + 1;
                }
                proof {
                    lemma_view_values_ext(r@, view_values(l@));
                }
                Value::List(r)
            },
            Value::Dict(m) => {
                let mut r: Vec<(String, Value)> = Vec::new();
                let mut i: usize = 0;
                while i < m.len()
                    invariant
                        *self == Value::Dict(*m),
                        i <= m.len(),
                        r@.len() == i,
                        forall|j: int| 0 <= j < i ==> (#[trigger] r@[j]).0@ == m@[j].0@ && view_value(r@[j].1) == view_value(m@[j].1),
                    decreases m.len() - i,
                {
                    let k = copy_str(&m[i].0);
                    proof {
                        assert(decreases_to!(*m => (*m)[i as int]));
                        assert(decreases_to!(*self => (*self)->Dict_0));
                        assert(decreases_to!((*m)[i as int] => (*m)[i as int].1));
                        assert(decreases_to!(*self => (*m)[i as int].1));
                    }
                    let v = m[i].1.copy();
                    r.push((k, v));
                    i = i + 1;
                }
                proof {
                    lemma_view_entries_ext(r@, view_entries(m@));
                }
                Value::Dict(r)
            },
            Value::Function { params, body } => Value::Function {
                params: copy_strings(params),
                body: share_body(body),
            },
            Value::Builtin(b) => Value::Builtin(*b),
            Value::Null => Value::Null,
        }
    }

    /// `self + other`: integer sum, float sum (by the host), or string concatenation.
    pub fn add(&self, other: Value) -> (r: Result<Value, ArithError>)
        requires
            !add_overflows(self@, other@),
        ensures
            view_result(r) == spec_add(self@, other@),
    {
            match (self, &other) {
            (Value::Int(a), Value::Int(b)) => Ok(Value::Int(*a + *b)),
            (Value::Float(_), Value::Float(_)) => Err(ArithError::NeedsFloat),
            (Value::Int(_), Value::Float(_)) => Err(ArithError::NeedsFloat),
            (Value::Float(_), Value::Int(_)) => Err(ArithError::NeedsFloat),
            (Value::String(a), Value::String(b)) => Ok(Value::String(concat(a.as_str(), b.as_str()))),
            _ => Err(ArithError::InvalidTypes),
        }
    }

    /// `self - other`.
    pub fn sub(&self, other: Value) -> (r: Result<Value, ArithError>)
        requires
            !sub_overflows(self@, other@),
        ensures
            view_result(r) == spec_sub(self@, other@),
    {
            match (self, &other) {
            (Value::Int(a), Value::Int(b)) => Ok(Value::Int(*a - *b)),
            (Value::Float(_), Value::Float(_)) => Err(ArithError::NeedsFloat),
            _ => Err(ArithError::InvalidTypes),
        }
    }

    /// `self * other`.
    pub fn mul(&self, other: Value) -> (r: Result<Value, ArithError>)
        requires
            !mul_overflows(self@, other@),
        ensures
            view_result(r) == spec_mul(self@, other@),
    {
            match (self, &other) {
            (Value::Int(a), Value::Int(b)) => Ok(Value::Int(*a * *b)),
            (Value::Float(_), Value::Float(_)) => Err(ArithError::NeedsFloat),
            _ => Err(ArithError::InvalidTypes),
        }
    }

    /// `self / other`; integer division rounds toward zero.
    pub fn div(&self, other: Value) -> (r: Result<Value, ArithError>)
        requires
            !div_overflows(self@, other@),
        ensures
            view_result(r) == spec_div(self@, other@),
    {
            match (self, &other) {
            (Value::Int(a), Value::Int(b)) => {
                if *b == 0 {
                    return Err(ArithError::DivisionByZero);
                }
                Ok(Value::Int(div_toward_zero(*a, *b)))
            },
            (Value::Float(_), Value::Float(_)) => Err(ArithError::NeedsFloat),
            _ => Err(ArithError::InvalidTypes),
        }
    }

    /// `-self`.
    pub fn negate(&self) -> (r: Result<Value, ArithError>)
        requires
            !negate_overflows(self@),
        ensures
            view_result(r) == spec_negate(self@),
    {
            match self {
            Value::Int(i) => Ok(Value::Int(-*i)),
            Value::Float(_) => Err(ArithError::NeedsFloat),
            _ => Err(ArithError::InvalidTypes),
        }
    }

    /// How `self` and `other` are ordered, if they are.
    pub fn partial_cmp(&self, other: &Value) -> (r: Result<Option<Order>, ArithError>)
        ensures
            r == spec_compare(self@, other@),
    {
            match (self, other) {
            (Value::Int(a), Value::Int(b)) => {
                if *a < *b {
                    Ok(Some(Order::Less))
                } else if *a == *b {
                    Ok(Some(Order::Equal))
                } else {
                    Ok(Some(Order::Greater))
                }
            },
            (Value::Float(_), Value::Float(_)) => Err(ArithError::NeedsFloat),
            (Value::Int(_), Value::Float(_)) => Err(ArithError::NeedsFloat),
            (Value::Float(_), Value::Int(_)) => Err(ArithError::NeedsFloat),
            (Value::String(a), Value::String(b)) => Ok(Some(compare_str(a.as_str(), b.as_str()))),
            (Value::Bool(a), Value::Bool(b)) => {
                if *a == *b {
                    Ok(Some(Order::Equal))
                } else if !*a {
                    Ok(Some(Order::Less))
                } else {
                    Ok(Some(Order::Greater))
                }
            },
            _ => Ok(None),
        }
    }
}

} // verus!
