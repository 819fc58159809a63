//! The state that commands run in: working directory, environment, last exit code,
//! and the embedder's own state.

use indexmap::IndexMap;
use vstd::prelude::*;

use crate::text::{push_str, string_from_chars};

verus! {

#[verifier::external_type_specification]
#[verifier::external_body]
#[verifier::reject_recursive_types(K)]
#[verifier::reject_recursive_types(V)]
#[verifier::reject_recursive_types(S)]
pub struct ExIndexMap<K, V, S>(IndexMap<K, V, S>);

/// The entries of an environment map, in the map's order: each variable's name with its
/// value, as text.
pub uninterp spec fn env_entries(m: IndexMap<String, String>) -> Seq<(Seq<char>, Seq<char>)>;

/// The value of the first entry named `k`, if any.
pub open spec fn lookup(es: Seq<(Seq<char>, Seq<char>)>, k: Seq<char>) -> Option<Seq<char>>
    decreases es.len(),
{
    if es.len() == 0 {
        None
    } else if es[0].0 == k {
        Some(es[0].1)
    } else {
        lookup(es.drop_first(), k)
    }
}

/// The entries after setting `k` to `v`: the first entry named `k` takes the value in its
/// place; without one, a new entry goes last.
pub open spec fn assign(es: Seq<(Seq<char>, Seq<char>)>, k: Seq<char>, v: Seq<char>) -> Seq<(Seq<char>, Seq<char>)>
    decreases es.len(),
{
    if es.len() == 0 {
        seq![(k, v)]
    } else if es[0].0 == k {
        seq![(k, v)] + es.drop_first()
    } else {
        seq![es[0]] + assign(es.drop_first(), k, v)
    }
}

/// Law: setting a variable keeps the order of the entries: an existing variable keeps its
/// place and gets the new value, a new one is appended; afterwards the variable reads as
/// the new value and every other variable reads as before.
pub proof fn law_assign_in_place_or_appended(es: Seq<(Seq<char>, Seq<char>)>, k: Seq<char>, v: Seq<char>)
    ensures
        lookup(es, k) is None ==> assign(es, k, v) == es.push((k, v)),
        lookup(es, k) is Some ==> exists|i: int|
            0 <= i < es.len() && es[i].0 == k && (forall|j: int| 0 <= j < i ==> es[j].0 != k)
                && assign(es, k, v) == #[trigger] es.update(i, (k, v)),
        lookup(assign(es, k, v), k) == Some(v),
        forall|k2: Seq<char>| k2 != k ==> lookup(assign(es, k, v), k2) == #[trigger] lookup(es, k2),
    decreases es.len(),
{
    if es.len() == 0 {
        assert(seq![(k, v)] =~= es.push((k, v)));
        assert(seq![(k, v)].drop_first() =~= es);
    } else {
        let t = es.drop_first();
        law_assign_in_place_or_appended(t, k, v);
        let a = assign(es, k, v);
        if es[0].0 == k {
            assert(a =~= es.update(0, (k, v)));
            assert(a.drop_first() =~= t);
            assert forall|k2: Seq<char>| k2 != k implies lookup(a, k2) == #[trigger] lookup(es, k2) by {}
        } else {
            assert(a.drop_first() =~= assign(t, k, v));
            assert forall|k2: Seq<char>| k2 != k implies lookup(a, k2) == #[trigger] lookup(es, k2) by {
                assert(lookup(t, k2) == lookup(assign(t, k, v), k2));
            }
            if lookup(t, k) is None {
                assert(a =~= es.push((k, v)));
            } else {
                let i = choose|i: int|
                    0 <= i < t.len() && t[i].0 == k && (forall|j: int| 0 <= j < i ==> t[j].0 != k)
                        && assign(t, k, v) == #[trigger] t.update(i, (k, v));
                assert(a =~= es.update(i + 1, (k, v)));
                assert forall|j: int| 0 <= j < i + 1 implies es[j].0 != k by {
                    if j > 0 {
                        assert(es[j] == t[j - 1]);
                    }
                }
            }
        }
    }
}

/// `IndexMap::contains_key`: whether a variable of that name is present.
#[verifier::external_body]
fn env_contains(m: &IndexMap<String, String>, key: &str) -> (r: bool)
    ensures
        r == lookup(env_entries(*m), key@) is Some,
{
    m.contains_key(key)
}

/// `IndexMap::insert`: the entry of `key` takes `value` in its place, or a new entry is
/// appended when there is none.
#[verifier::external_body]
fn env_insert(m: &mut IndexMap<String, String>, key: String, value: String)
    ensures
        env_entries(*final(m)) == assign(env_entries(*old(m)), key@, value@),
{
    m.insert(key, value);
}

/// `IndexMap::get`: the value stored under `key`, if any.
#[verifier::external_body]
pub(crate) fn env_get<'a>(m: &'a IndexMap<String, String>, key: &str) -> (r: Option<&'a String>)
    ensures
        match r {
            Some(v) => lookup(env_entries(*m), key@) == Some(v@),
            None => lookup(env_entries(*m), key@) is None,
        },
{
    m.get(key)
}

/// `IndexMap::clone`: a map with the same entries in the same order.
#[verifier::external_body]
pub(crate) fn env_clone(m: &IndexMap<String, String>) -> (r: IndexMap<String, String>)
    ensures
        env_entries(r) == env_entries(*m),
{
    m.clone()
}

/// The name of the variable that mirrors the working directory.
pub open spec fn pwd_name() -> Seq<char> {
    seq!['P', 'W', 'D']
}

fn pwd_key() -> (r: String)
    ensures
        r@ == pwd_name(),
{
    let s: String = "PWD".to_owned();
    proof {
        reveal_strlit("PWD");
    }
    assert(s@ =~= pwd_name());
    s
}

/// The environment after setting each pair of `vars`, in order.
pub open spec fn with_vars(env: Seq<(Seq<char>, Seq<char>)>, vars: Seq<(Seq<char>, Seq<char>)>) -> Seq<(Seq<char>, Seq<char>)>
    decreases vars.len(),
{
    if vars.len() == 0 {
        env
    } else {
        assign(with_vars(env, vars.drop_last()), vars.last().0, vars.last().1)
    }
}

/// The texts of a list of variable assignments.
pub open spec fn vars_model(vars: Seq<(String, String)>) -> Seq<(Seq<char>, Seq<char>)> {
    vars.map_values(|kv: (String, String)| (kv.0@, kv.1@))
}

/// The context a shell's commands run in.
pub struct Context<T = ()> {
    /// The working directory; [`Context::set_cwd`] changes it together with `PWD`.
    pub cwd: String,
    pub env: IndexMap<String, String>,
    pub last_exit_code: i32,
    pub state: T,
}

impl<T> Context<T> {
    /// The working directory.
    pub open spec fn cwd(&self) -> Seq<char> {
        self.cwd@
    }

    /// The environment variables, in the map's order.
    pub open spec fn vars(&self) -> Seq<(Seq<char>, Seq<char>)> {
        env_entries(self.env)
    }

    /// The exit code of the last command run.
    pub open spec fn exit_status(&self) -> i32 {
        self.last_exit_code
    }

    /// The embedder's own state.
    pub open spec fn user_state(&self) -> T {
        self.state
    }

    /// A context in directory `cwd` with environment `env`; `PWD` is appended with `cwd`
    /// unless `env` already holds it.
    pub fn new(cwd: String, env: IndexMap<String, String>, state: T) -> (r: Self)
        ensures
            r.cwd() == cwd@,
            r.vars() == if lookup(env_entries(env), pwd_name()) is Some {
                env_entries(env)
            } else {
                env_entries(env).push((pwd_name(), cwd@))
            },
            r.exit_status() == 0,
            r.user_state() == state,
    {
        let mut env = env;
        proof {
            reveal_strlit("PWD");
            assert("PWD"@ =~= pwd_name());
        }
        if !env_contains(&env, "PWD") {
            proof {
                law_assign_in_place_or_appended(env_entries(env), pwd_name(), cwd@);
            }
            env_insert(&mut env, pwd_key(), cwd.clone());
        }
        Self { cwd, env, last_exit_code: 0, state }
    }

    /// Sets each variable of `vars` in order (later ones win), then takes the working
    /// directory from `PWD` if the environment holds it.
    pub fn inherit_vars(&mut self, vars: Vec<(String, String)>)
        ensures
            final(self).vars() == with_vars(old(self).vars(), vars_model(vars@)),
            final(self).cwd() == match lookup(final(self).vars(), pwd_name()) {
                Some(pwd) => pwd,
                None => old(self).cwd(),
            },
            final(self).exit_status() == old(self).exit_status(),
            final(self).user_state() == old(self).user_state(),
    {
        let ghost all = vars_model(vars@);
        let n = vars.len();
        for i in 0..n
            invariant
                n == vars.len(),
                all == vars_model(vars@),
                self.vars() == with_vars(old(self).vars(), all.take(i as int)),
                self.cwd == old(self).cwd,
                self.last_exit_code == old(self).last_exit_code,
                self.state == old(self).state,
        {
            let key = vars[i].0.clone();
            let value = vars[i].1.clone();
            env_insert(&mut self.env, key, value);
            assert(all.take(i + 1).drop_last() =~= all.take(i as int));
        }
        assert(all.take(n as int) =~= all);
        match env_get(&self.env, "PWD") {
            Some(pwd) => {
                self.cwd = pwd.clone();
            },
            None => {},
        }
        proof {
            reveal_strlit("PWD");
            assert("PWD"@ =~= pwd_name());
        }
    }

    /// A copy of the environment.
    pub(crate) fn snapshot_env(&self) -> (r: IndexMap<String, String>)
        ensures
            env_entries(r) == self.vars(),
    {
        env_clone(&self.env)
    }

    /// The value of variable `name`, if it is set.
    pub(crate) fn var(&self, name: &str) -> (r: Option<&String>)
        ensures
            match r {
                Some(v) => lookup(self.vars(), name@) == Some(v@),
                None => lookup(self.vars(), name@) is None,
            },
    {
        env_get(&self.env, name)
    }

    /// Puts back a saved working directory and environment.
    pub(crate) fn restore(&mut self, cwd: String, env: IndexMap<String, String>)
        ensures
            final(self).cwd() == cwd@,
            final(self).vars() == env_entries(env),
            final(self).exit_status() == old(self).exit_status(),
            final(self).user_state() == old(self).user_state(),
    {
        self.set_cwd(cwd);
        self.env = env;
    }

    /// Records the exit code of the command that just ran.
    pub(crate) fn set_exit_status(&mut self, code: i32)
        ensures
            final(self).cwd() == old(self).cwd(),
            final(self).vars() == old(self).vars(),
            final(self).exit_status() == code,
            final(self).user_state() == old(self).user_state(),
    {
        self.last_exit_code = code;
    }

    /// The prompt shown when the shell has no prompter: the working directory and `> `.
    pub fn default_prompt(&self) -> (r: String)
        ensures
            r@ == self.cwd() + "> "@,
    {
        let mut text: Vec<char> = Vec::new();
        push_str(&mut text, self.cwd.as_str());
        push_str(&mut text, "> ");
        assert(text@ =~= self.cwd@ + "> "@);
        string_from_chars(&text)
    }

    pub fn get_cwd(&self) -> (r: &str)
        ensures
            r@ == self.cwd(),
    {
        self.cwd.as_str()
    }

    /// Changes the working directory, and `PWD` with it (in its place, or appended).
    pub fn set_cwd(&mut self, new_cwd: String)
        ensures
            final(self).cwd() == new_cwd@,
            final(self).vars() == assign(old(self).vars(), pwd_name(), new_cwd@),
            final(self).exit_status() == old(self).exit_status(),
            final(self).user_state() == old(self).user_state(),
    {
        self.cwd = new_cwd.clone();
        env_insert(&mut self.env, pwd_key(), new_cwd);
    }
}

} // verus!
