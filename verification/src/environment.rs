//! Variable scopes: a chain of dictionaries, the globals first, the innermost last.

use crate::model::{view_entries, Val};
use crate::value::{dict_find, dict_insert, find_key, insert_entry, lemma_find_key, lookup, Value};
use vstd::prelude::*;

verus! {

broadcast use crate::model::group_value_views;

/// The model of one scope: its bindings in the order they were made.
pub type Scope = Seq<(Seq<char>, Val)>;

/// The model of a chain of scopes; index 0 holds the globals.
pub type Env = Seq<Scope>;

/// The innermost binding of `name`.
pub open spec fn env_get(env: Env, name: Seq<char>) -> Option<Val>
    decreases env.len(),
{
    if env.len() == 0 {
        None
    } else {
        match lookup(env.last(), name) {
            Some(v) => Some(v),
            None => env_get(env.drop_last(), name),
        }
    }
}

/// `env` with `name` bound to `v` in the innermost scope.
pub open spec fn env_define(env: Env, name: Seq<char>, v: Val) -> Env {
    if env.len() == 0 {
        env
    } else {
        env.update(env.len() - 1, insert_entry(env.last(), name, v))
    }
}

/// `env` with the innermost binding of `name` set to `v`; `None` when `name` is unbound.
pub open spec fn env_assign(env: Env, name: Seq<char>, v: Val) -> Option<Env>
    decreases env.len(),
{
    if env.len() == 0 {
        None
    } else if find_key(env.last(), name) is Some {
        Some(env.update(env.len() - 1, insert_entry(env.last(), name, v)))
    } else {
        match env_assign(env.drop_last(), name, v) {
            Some(e) => Some(e.push(env.last())),
            None => None,
        }
    }
}

pub open spec fn view_scopes(s: Seq<Vec<(String, Value)>>) -> Env {
    s.map_values(|sc: Vec<(String, Value)>| view_entries(sc@))
}

pub struct Environment {
    pub scopes: Vec<Vec<(String, Value)>>,
}

impl View for Environment {
    type V = Env;

    open spec fn view(&self) -> Env {
        view_scopes(self.scopes@)
    }
}

impl Environment {
    /// An environment with one empty scope, the globals.
    pub fn new() -> (r: Environment)
        ensures
            r@ == seq![Seq::<(Seq<char>, Val)>::empty()],
    {
        let mut scopes: Vec<Vec<(String, Value)>> = Vec::new();
        scopes.push(Vec::new());
        let r = Environment { scopes };
        assert(r@ =~= seq![Seq::<(Seq<char>, Val)>::empty()]);
        r
    }

    /// An environment whose globals are the given bindings.
    pub fn with_globals(globals: Vec<(String, Value)>) -> (r: Environment)
        ensures
            r@ == seq![view_entries(globals@)],
    {
        let ghost g = view_entries(globals@);
        let mut scopes: Vec<Vec<(String, Value)>> = Vec::new();
        scopes.push(globals);
        let r = Environment { scopes };
        assert(r@ =~= seq![g]);
        r
    }

    /// The innermost value bound to `name`, copied.
    pub fn get(&self, name: &str) -> (r: Option<Value>)
        ensures
            match r {
                Some(v) => env_get(self@, name@) == Some(v@),
                None => env_get(self@, name@) is None,
            },
    {
        let mut k: usize = self.scopes.len();
        assert(self@.subrange(0, k as int) =~= self@);
        while k > 0
            invariant
                k <= self.scopes.len(),
                env_get(self@, name@) == env_get(self@.subrange(0, k as int), name@),
            decreases k,
        {
            let ghost sub = self@.subrange(0, k as int);
            assert(sub.last() == view_entries(self.scopes@[k - 1]@));
            assert(sub.drop_last() =~= self@.subrange(0, k - 1));
            match crate::value::dict_get(&self.scopes[k - 1], name) {
                Some(v) => {
                    return Some(v);
                },
                None => {},
            }
            k = k - 1;
        }
        None
    }

    /// Binds `name` to `value` in the innermost scope.
    pub fn define(&mut self, name: String, value: Value)
        requires
            old(self).scopes.len() > 0,
        ensures
            final(self)@ == env_define(old(self)@, name@, value@),
            final(self).scopes.len() == old(self).scopes.len(),
    {
        let last = self.scopes.len() - 1;
        let ghost before = self@;
        let ghost nv = name@;
        let ghost vv = value@;
        dict_insert(&mut self.scopes[last], name, value);
        assert(self@ =~= env_define(before, nv, vv));
    }

    /// Sets the innermost binding of `name` to `value`; false, with nothing
    /// changed, when `name` is unbound.
    pub fn assign(&mut self, name: &str, value: Value) -> (r: bool)
        ensures
            match env_assign(old(self)@, name@, value@) {
                Some(e) => r && final(self)@ == e,
                None => !r && final(self)@ == old(self)@,
            },
            final(self).scopes.len() == old(self).scopes.len(),
    {
        let mut k: usize = self.scopes.len();
        let ghost before = self@;
        while k > 0
            invariant
                k <= self.scopes.len(),
                self@ == before,
                before == old(self)@,
                self.scopes.len() == old(self).scopes.len(),
                before.len() == self.scopes.len(),
                forall|j: int| k <= j < before.len() ==> find_key(#[trigger] before[j], name@) is None,
            decreases k,
        {
            match dict_find(&self.scopes[k - 1], name) {
                Some(i) => {
                    let ghost vv = value@;
                    let ghost nv = name@;
                    let key = crate::text::copy_str(&self.scopes[k - 1][i].0);
                    proof {
                        lemma_find_key(before[k - 1], name@);
                    }
                    dict_insert(&mut self.scopes[k - 1], key, value);
                    proof {
                        lemma_env_assign_at(before, name@, vv, (k - 1) as int);
                        assert(self@ =~= before.update(k - 1, insert_entry(before[k - 1], nv, vv)));
                    }
                    return true;
                },
                None => {},
            }
            k = k - 1;
        }
        proof {
            lemma_env_assign_none(before, name@, value@);
        }
        false
    }

    /// Opens a new innermost scope.
    pub fn push_scope(&mut self)
        ensures
            final(self)@ == old(self)@.push(Seq::empty()),
            final(self).scopes.len() == old(self).scopes.len() + 1,
    {
        self.scopes.push(Vec::new());
        assert(self@ =~= old(self)@.push(Seq::empty()));
    }

    /// Opens a new innermost scope with the given bindings.
    pub fn push_bindings(&mut self, scope: Vec<(String, Value)>)
        ensures
            final(self)@ == old(self)@.push(view_entries(scope@)),
            final(self).scopes.len() == old(self).scopes.len() + 1,
    {
        let ghost s = view_entries(scope@);
        self.scopes.push(scope);
        assert(self@ =~= old(self)@.push(s));
    }

    /// Closes the innermost scope.
    pub fn pop_scope(&mut self)
        requires
            old(self).scopes.len() > 0,
        ensures
            final(self)@ == old(self)@.drop_last(),
            final(self).scopes.len() == old(self).scopes.len() - 1,
    {
        self.scopes.pop();
        assert(self@ =~= old(self)@.drop_last());
    }
}

proof fn lemma_env_assign_at(env: Env, name: Seq<char>, v: Val, k: int)
    requires
        0 <= k < env.len(),
        find_key(env[k], name) is Some,
        forall|j: int| k < j < env.len() ==> find_key(#[trigger] env[j], name) is None,
    ensures
        env_assign(env, name, v) == Some(env.update(k, insert_entry(env[k], name, v))),
    decreases env.len(),
{
    if k < env.len() - 1 {
        let d = env.drop_last();
        assert forall|j: int| k < j < d.len() implies find_key(#[trigger] d[j], name) is None by {
            assert(d[j] == env[j]);
        }
        lemma_env_assign_at(d, name, v, k);
        assert(find_key(env[env.len() - 1], name) is None);
        assert(d.update(k, insert_entry(env[k], name, v)).push(env.last()) =~= env.update(
            k,
            insert_entry(env[k], name, v),
        ));
    }
}

proof fn lemma_env_assign_none(env: Env, name: Seq<char>, v: Val)
    requires
        forall|j: int| 0 <= j < env.len() ==> find_key(#[trigger] env[j], name) is None,
    ensures
        env_assign(env, name, v) is None,
    decreases env.len(),
{
    if env.len() > 0 {
        let d = env.drop_last();
        assert forall|j: int| 0 <= j < d.len() implies find_key(#[trigger] d[j], name) is None by {
            assert(d[j] == env[j]);
        }
        assert(find_key(env[env.len() - 1], name) is None);
        lemma_env_assign_none(d, name, v);
    }
}

} // verus!
