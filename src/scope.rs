//! The variable scope: names bound to text values, each name at most once.
use vstd::prelude::*;

use crate::text::{chars_of, string_of};

verus! {

/// Names bound to values. The order of the bindings carries no meaning.
pub struct Scope {
    names: Vec<String>,
    values: Vec<String>,
    bound: Ghost<Map<Seq<char>, Seq<char>>>,
}

/// The name under which an environment variable is seen: `env_` and its own name.
pub open spec fn env_name(key: Seq<char>) -> Seq<char> {
    seq!['e', 'n', 'v', '_'] + key
}

impl View for Scope {
    type V = Map<Seq<char>, Seq<char>>;

    closed spec fn view(&self) -> Map<Seq<char>, Seq<char>> {
        self.bound@
    }
}

impl Scope {
    /// Each name is bound once, and the bindings are those the lists hold.
    pub closed spec fn wf(&self) -> bool {
        &&& self.names@.len() == self.values@.len()
        &&& forall|i: int, j: int|
            0 <= i < self.names@.len() && 0 <= j < self.names@.len() && i != j
                ==> #[trigger] self.names@[i]@ != #[trigger] self.names@[j]@
        &&& forall|k: Seq<char>|
            #[trigger] self.bound@.contains_key(k) <==> exists|i: int|
                0 <= i < self.names@.len() && #[trigger] self.names@[i]@ == k
        &&& forall|i: int|
            0 <= i < self.names@.len() ==> self.bound@[#[trigger] self.names@[i]@]
                == self.values@[i]@
    }

    pub fn new() -> (r: Self)
        ensures
            r.wf(),
            r@ == Map::<Seq<char>, Seq<char>>::empty(),
    {
        Scope { names: Vec::new(), values: Vec::new(), bound: Ghost(Map::empty()) }
    }

    /// A scope holding each environment variable under `env_<name>`, the later of two
    /// equal names winning.
    #[verifier::rlimit(40)]
    pub fn from_env(env: &Vec<(String, String)>) -> (r: Self)
        ensures
            r.wf(),
            forall|k: Seq<char>|
                #![trigger r@.contains_key(k)]
                r@.contains_key(k) <==> exists|i: int|
                    0 <= i < env@.len() && env_name(#[trigger] env@[i].0@) == k,
            forall|i: int|
                0 <= i < env@.len() && (forall|j: int|
                    i < j < env@.len() ==> #[trigger] env@[j].0@ != env@[i].0@) ==> r@[env_name(
                    env@[i].0@,
                )] == env@[i].1@,
    {
        let mut r = Scope::new();
        let mut i: usize = 0;
        while i < env.len()
            invariant
                r.wf(),
                i <= env@.len(),
                forall|k: Seq<char>|
                    #![trigger r@.contains_key(k)]
                    r@.contains_key(k) <==> exists|j: int|
                        0 <= j < i && env_name(#[trigger] env@[j].0@) == k,
                forall|a: int|
                    0 <= a < i && (forall|j: int|
                        a < j < i ==> #[trigger] env@[j].0@ != env@[a].0@) ==> r@[env_name(
                        env@[a].0@,
                    )] == env@[a].1@,
            decreases env@.len() - i,
        {
            let mut name = vec!['e', 'n', 'v', '_'];
            let key = chars_of(env[i].0.as_str());
            let ghost head = name@;
            let mut k: usize = 0;
            while k < key.len()
                invariant
                    k <= key@.len(),
                    name@ == head + key@.take(k as int),
                decreases key@.len() - k,
            {
                name.push(key[k]);
                k = k + 1;
                assert(name@ =~= head + key@.take(k as int));
            }
            assert(key@.take(key@.len() as int) =~= key@);
            assert(name@ == env_name(env@[i as int].0@));
            let ghost before = r@;
            r.insert(string_of(&name), env[i].1.clone());
            proof {
                assert forall|a: int|
                    0 <= a < i + 1 && (forall|j: int|
                        a < j < i + 1 ==> #[trigger] env@[j].0@ != env@[a].0@) implies r@[env_name(
                    env@[a].0@,
                )] == env@[a].1@ by {
                    if a < i {
                        assert(env@[i as int].0@ != env@[a].0@);
                        assert(env_name(env@[i as int].0@) != env_name(env@[a].0@)) by {
                            assert(env_name(env@[i as int].0@).subrange(4, env_name(env@[i as int].0@).len() as int) =~= env@[i as int].0@);
                            assert(env_name(env@[a].0@).subrange(4, env_name(env@[a].0@).len() as int) =~= env@[a].0@);
                        }
                    }
                }
                assert forall|kk: Seq<char>|
                    (exists|j: int| 0 <= j < i + 1 && env_name(#[trigger] env@[j].0@) == kk)
                    implies #[trigger] r@.contains_key(kk) by {
                    let j = choose|j: int| 0 <= j < i + 1 && env_name(#[trigger] env@[j].0@) == kk;
                    if j < i {
                        assert(before.contains_key(kk));
                    }
                }
            }
            i = i + 1;
        }
        r
    }

    /// Where `name` is bound, if it is.
    fn find(&self, name: &String) -> (r: Option<usize>)
        requires
            self.wf(),
        ensures
            r is Some <==> self@.contains_key(name@),
            r is Some ==> r->0 < self.names@.len() && self.names@[r->0 as int]@ == name@,
    {
        let mut i: usize = 0;
        while i < self.names.len()
            invariant
                self.wf(),
                i <= self.names@.len(),
                forall|j: int| 0 <= j < i ==> #[trigger] self.names@[j]@ != name@,
            decreases self.names@.len() - i,
        {
            if self.names[i] == *name {
                return Some(i);
            }
            i = i + 1;
        }
        None
    }

    /// The value bound to `name`.
    pub fn get(&self, name: &String) -> (r: Option<String>)
        requires
            self.wf(),
        ensures
            r is Some <==> self@.contains_key(name@),
            r is Some ==> r->0@ == self@[name@],
    {
        match self.find(name) {
            Some(i) => Some(self.values[i].clone()),
            None => None,
        }
    }

    pub fn contains_key(&self, name: &String) -> (r: bool)
        requires
            self.wf(),
        ensures
            r == self@.contains_key(name@),
    {
        self.find(name).is_some()
    }

    /// Binds `name` to `value`, replacing an earlier binding.
    pub fn insert(&mut self, name: String, value: String)
        requires
            old(self).wf(),
        ensures
            final(self).wf(),
            final(self)@ == old(self)@.insert(name@, value@),
    {
        let ghost want = self.bound@.insert(name@, value@);
        match self.find(&name) {
            Some(i) => {
                self.values.set(i, value);
                self.bound = Ghost(want);
                proof {
                    assert forall|k: Seq<char>| #[trigger] self.bound@.contains_key(k) <==> exists|j: int|
                        0 <= j < self.names@.len() && #[trigger] self.names@[j]@ == k by {
                        if k == name@ {
                            assert(self.names@[i as int]@ == k);
                        }
                    }
                }
            },
            None => {
                self.names.push(name);
                self.values.push(value);
                self.bound = Ghost(want);
                proof {
                    let n = self.names@.len() - 1;
                    assert forall|k: Seq<char>| #[trigger] self.bound@.contains_key(k) <==> exists|j: int|
                        0 <= j < self.names@.len() && #[trigger] self.names@[j]@ == k by {
                        if k == name@ {
                            assert(self.names@[n]@ == k);
                        } else if self.bound@.contains_key(k) {
                            let j = choose|j: int| 0 <= j < old(self).names@.len() && #[trigger] old(self).names@[j]@ == k;
                            assert(self.names@[j]@ == k);
                        }
                    }
                }
            },
        }
    }

    /// Drops the binding of `name`, if there is one.
    pub fn remove(&mut self, name: &String)
        requires
            old(self).wf(),
        ensures
            final(self).wf(),
            final(self)@ == old(self)@.remove(name@),
    {
        let ghost want = self.bound@.remove(name@);
        match self.find(name) {
            Some(i) => {
                let ghost on = self.names@;
                self.names.remove(i);
                self.values.remove(i);
                self.bound = Ghost(want);
                proof {
                    assert forall|a: int, b: int|
                        0 <= a < self.names@.len() && 0 <= b < self.names@.len() && a != b
                            implies #[trigger] self.names@[a]@ != #[trigger] self.names@[b]@ by {
                        let a0 = if a < i { a } else { a + 1 };
                        let b0 = if b < i { b } else { b + 1 };
                        assert(self.names@[a] == on[a0]);
                        assert(self.names@[b] == on[b0]);
                    }
                    assert forall|k: Seq<char>| #[trigger] self.bound@.contains_key(k) <==> exists|j: int|
                        0 <= j < self.names@.len() && #[trigger] self.names@[j]@ == k by {
                        if self.bound@.contains_key(k) {
                            let j = choose|j: int| 0 <= j < on.len() && #[trigger] on[j]@ == k;
                            assert(j != i);
                            let j1 = if j < i { j } else { j - 1 };
                            assert(self.names@[j1]@ == k);
                        }
                        if exists|j: int| 0 <= j < self.names@.len() && #[trigger] self.names@[j]@ == k {
                            let j = choose|j: int| 0 <= j < self.names@.len() && #[trigger] self.names@[j]@ == k;
                            let j0 = if j < i { j } else { j + 1 };
                            assert(on[j0]@ == k);
                            assert(j0 != i);
                        }
                    }
                    assert forall|j: int| 0 <= j < self.names@.len() implies self.bound@[#[trigger] self.names@[j]@]
                        == self.values@[j]@ by {
                        let j0 = if j < i { j } else { j + 1 };
                        assert(self.names@[j] == on[j0]);
                        assert(j0 != i);
                    }
                }
            },
            None => {
                assert(self.bound@ =~= want);
            },
        }
    }

    /// Binds every name of `other` to its value there; names only here keep theirs.
    pub fn overlay(&mut self, other: &Scope)
        requires
            old(self).wf(),
            other.wf(),
        ensures
            final(self).wf(),
            final(self)@ == old(self)@.union_prefer_right(other@),
    {
        let mut i: usize = 0;
        while i < other.names.len()
            invariant
                self.wf(),
                other.wf(),
                i <= other.names@.len() == other.values@.len(),
                forall|k: Seq<char>|
                    #![trigger self@.contains_key(k)]
                    self@.contains_key(k) <==> (old(self)@.contains_key(k) || exists|j: int|
                        0 <= j < i && #[trigger] other.names@[j]@ == k),
                forall|k: Seq<char>|
                    self@.contains_key(k) ==> #[trigger] self@[k] == if exists|j: int|
                        0 <= j < i && #[trigger] other.names@[j]@ == k {
                        other@[k]
                    } else {
                        old(self)@[k]
                    },
            decreases other.names@.len() - i,
        {
            let ghost before = self@;
            self.insert(other.names[i].clone(), other.values[i].clone());
            proof {
                let ki = other.names@[i as int]@;
                assert(other@[ki] == other.values@[i as int]@);
                assert forall|k: Seq<char>| #![trigger self@.contains_key(k)]
                    self@.contains_key(k) <==> (old(self)@.contains_key(k) || exists|j: int|
                        0 <= j < i + 1 && #[trigger] other.names@[j]@ == k) by {
                    if k == ki {
                        assert(other.names@[i as int]@ == k);
                    } else if exists|j: int| 0 <= j < i + 1 && #[trigger] other.names@[j]@ == k {
                        let j = choose|j: int| 0 <= j < i + 1 && #[trigger] other.names@[j]@ == k;
                        assert(j < i);
                    }
                }
                assert forall|k: Seq<char>| self@.contains_key(k) implies #[trigger] self@[k] == if exists|j: int|
                        0 <= j < i + 1 && #[trigger] other.names@[j]@ == k {
                        other@[k]
                    } else {
                        old(self)@[k]
                    } by {
                    if k == ki {
                        assert(other.names@[i as int]@ == k);
                    } else if exists|j: int| 0 <= j < i + 1 && #[trigger] other.names@[j]@ == k {
                        let j = choose|j: int| 0 <= j < i + 1 && #[trigger] other.names@[j]@ == k;
                        assert(j < i);
                    }
                }
            }
            i = i + 1;
        }
        proof {
            assert forall|k: Seq<char>| #![trigger other@.contains_key(k)]
                other@.contains_key(k) <==> exists|j: int| 0 <= j < other.names@.len() && #[trigger] other.names@[j]@ == k by {
            }
            assert(self@ =~= old(self)@.union_prefer_right(other@));
        }
    }

    /// A scope with the same bindings.
    pub fn duplicate(&self) -> (r: Scope)
        requires
            self.wf(),
        ensures
            r.wf(),
            r@ == self@,
    {
        let mut r = Scope::new();
        r.overlay(self);
        assert(r@ =~= self@);
        r
    }
}

} // verus!
