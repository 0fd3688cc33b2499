//! The global state of a chaotic system: its variables by name and the
//! pairwise covariances between them.
//!
//! Values are the caller's (probability clouds); covariances are binary64
//! numbers carried as their bit patterns, so that an unset pair reads as the
//! bits of `0.0`, which are all zero.

use vstd::prelude::*;
use crate::text::str_eq;

verus! {

/// No name occurs twice among the variables.
pub open spec fn unique_names<V>(s: Seq<(String, V)>) -> bool {
    forall|i: int, j: int| 0 <= i < j < s.len() ==> s[i].0@ != s[j].0@
}

/// The variables as a map from name to value.
pub open spec fn var_map<V>(s: Seq<(String, V)>) -> Map<Seq<char>, V> {
    Map::new(
        |k: Seq<char>| exists|i: int| 0 <= i < s.len() && s[i].0@ == k,
        |k: Seq<char>| s[choose|i: int| 0 <= i < s.len() && s[i].0@ == k].1,
    )
}

/// No ordered pair of names occurs twice among the covariances.
pub open spec fn unique_pairs(s: Seq<(String, String, u64)>) -> bool {
    forall|i: int, j: int|
        0 <= i < j < s.len() ==> !(s[i].0@ == s[j].0@ && s[i].1@ == s[j].1@)
}

/// The covariances as a map from an ordered pair of names to the bits of the value.
pub open spec fn cov_map(s: Seq<(String, String, u64)>) -> Map<(Seq<char>, Seq<char>), u64> {
    Map::new(
        |k: (Seq<char>, Seq<char>)| exists|i: int| 0 <= i < s.len() && s[i].0@ == k.0 && s[i].1@ == k.1,
        |k: (Seq<char>, Seq<char>)|
            s[choose|i: int| 0 <= i < s.len() && s[i].0@ == k.0 && s[i].1@ == k.1].2,
    )
}

/// Every covariance is recorded for both orders of its pair, with one value.
pub open spec fn symmetric(m: Map<(Seq<char>, Seq<char>), u64>) -> bool {
    forall|a: Seq<char>, b: Seq<char>|
        #[trigger] m.dom().contains((a, b)) ==> m.dom().contains((b, a)) && m[(b, a)] == m[(a, b)]
}

/// Variables of a chaotic system and their pairwise covariances.
pub struct SystemState<V> {
    /// The variables, each under its name.
    pub variables: Vec<(String, V)>,
    /// Pairwise covariances: (first name, second name, bits of the value).
    pub covariances: Vec<(String, String, u64)>,
}

impl<V> SystemState<V> {
    /// The variables by name.
    pub open spec fn vars(&self) -> Map<Seq<char>, V> {
        var_map(self.variables@)
    }

    /// The covariances recorded so far, by ordered pair of names.
    pub open spec fn covs(&self) -> Map<(Seq<char>, Seq<char>), u64> {
        cov_map(self.covariances@)
    }

    /// Names are unique, pairs are unique, and covariances are symmetric.
    pub open spec fn wf(&self) -> bool {
        &&& unique_names(self.variables@)
        &&& unique_pairs(self.covariances@)
        &&& symmetric(self.covs())
    }

    /// The covariance of `a` and `b` (bits), zero when none was recorded.
    pub open spec fn covariance_of(&self, a: Seq<char>, b: Seq<char>) -> u64 {
        if self.covs().dom().contains((a, b)) {
            self.covs()[(a, b)]
        } else {
            0
        }
    }

    /// Creates an empty state.
    pub fn new() -> (r: Self)
        ensures
            r.wf(),
            r.vars() == Map::<Seq<char>, V>::empty(),
            r.covs() == Map::<(Seq<char>, Seq<char>), u64>::empty(),
    {
        let r = SystemState { variables: Vec::new(), covariances: Vec::new() };
        assert(r.vars() =~= Map::<Seq<char>, V>::empty());
        assert(r.covs() =~= Map::<(Seq<char>, Seq<char>), u64>::empty());
        r
    }

    /// Position of the variable named `name`, if there is one.
    fn find_var(&self, name: &str) -> (r: Option<usize>)
        requires
            unique_names(self.variables@),
        ensures
            match r {
                Some(i) => i < self.variables@.len() && self.variables@[i as int].0@ == name@,
                None => forall|i: int| 0 <= i < self.variables@.len() ==> self.variables@[i].0@ != name@,
            },
    {
        let mut i: usize = 0;
        while i < self.variables.len()
            invariant
                i <= self.variables@.len(),
                forall|j: int| 0 <= j < i ==> self.variables@[j].0@ != name@,
            decreases self.variables@.len() - i,
        {
            if str_eq(self.variables[i].0.as_str(), name) {
                return Some(i);
            }
            i = i + 1;
        }
        None
    }

    /// Adds a variable, replacing any variable of the same name.
    pub fn add_var(&mut self, name: String, var: V)
        requires
            old(self).wf(),
        ensures
            final(self).wf(),
            final(self).vars() == old(self).vars().insert(name@, var),
            final(self).covs() == old(self).covs(),
    {
        let ghost key = name@;
        let ghost before = self.variables@;
        match self.find_var(name.as_str()) {
            Some(i) => {
                self.variables.set(i, (name, var));
                proof {
                    let after = self.variables@;
                    assert(after == before.update(i as int, after[i as int]));
                    assert forall|k: Seq<char>| #![auto]
                        var_map(after).dom().contains(k) == var_map(before).insert(key, var).dom().contains(k)
                    by {
                        if k != key {
                            if var_map(before).dom().contains(k) {
                                let j: int = choose|j: int| 0 <= j < before.len() && before[j].0@ == k;
                                assert(after[j].0@ == k);
                            }
                        } else {
                            assert(after[i as int].0@ == k);
                        }
                    }
                    assert forall|k: Seq<char>| #![auto] var_map(after).dom().contains(k)
                        implies var_map(after)[k] == var_map(before).insert(key, var)[k]
                    by {
                        let j: int = choose|j: int| 0 <= j < after.len() && after[j].0@ == k;
                        if k == key {
                            assert(j == i);
                        } else {
                            let j0: int = choose|j0: int| 0 <= j0 < before.len() && before[j0].0@ == k;
                            assert(after[j0].0@ == k);
                            assert(j0 == j);
                        }
                    }
                    assert(var_map(after) =~= var_map(before).insert(key, var));
                }
            },
            None => {
                self.variables.push((name, var));
                proof {
                    let after = self.variables@;
                    assert(after == before.push(after[before.len() as int]));
                    assert forall|k: Seq<char>| #![auto]
                        var_map(after).dom().contains(k) == var_map(before).insert(key, var).dom().contains(k)
                    by {
                        if var_map(before).dom().contains(k) {
                            let j: int = choose|j: int| 0 <= j < before.len() && before[j].0@ == k;
                            assert(after[j].0@ == k);
                        }
                        if k == key {
                            assert(after[before.len() as int].0@ == k);
                        }
                    }
                    assert forall|k: Seq<char>| #![auto] var_map(after).dom().contains(k)
                        implies var_map(after)[k] == var_map(before).insert(key, var)[k]
                    by {
                        let j: int = choose|j: int| 0 <= j < after.len() && after[j].0@ == k;
                        if k == key {
                            assert(j == before.len());
                        } else {
                            let j0: int = choose|j0: int| 0 <= j0 < before.len() && before[j0].0@ == k;
                            assert(after[j0].0@ == k);
                            assert(j0 == j);
                        }
                    }
                    assert(var_map(after) =~= var_map(before).insert(key, var));
                }
            },
        }
    }

    /// The variable named `name`, if there is one.
    pub fn get_var(&self, name: &str) -> (r: Option<&V>)
        requires
            self.wf(),
        ensures
            r is Some <==> self.vars().dom().contains(name@),
            r matches Some(v) ==> *v == self.vars()[name@],
    {
        match self.find_var(name) {
            Some(i) => {
                proof {
                    let s = self.variables@;
                    let j: int = choose|j: int| 0 <= j < s.len() && s[j].0@ == name@;
                    assert(j == i);
                }
                Some(&self.variables[i].1)
            },
            None => None,
        }
    }

    /// Position of the covariance recorded for the ordered pair (`a`, `b`).
    fn find_cov(&self, a: &str, b: &str) -> (r: Option<usize>)
        ensures
            match r {
                Some(i) => i < self.covariances@.len() && self.covariances@[i as int].0@ == a@
                    && self.covariances@[i as int].1@ == b@,
                None => forall|i: int| 0 <= i < self.covariances@.len()
                    ==> !(self.covariances@[i].0@ == a@ && self.covariances@[i].1@ == b@),
            },
    {
        let mut i: usize = 0;
        while i < self.covariances.len()
            invariant
                i <= self.covariances@.len(),
                forall|j: int| 0 <= j < i ==> !(self.covariances@[j].0@ == a@ && self.covariances@[j].1@ == b@),
            decreases self.covariances@.len() - i,
        {
            if str_eq(self.covariances[i].0.as_str(), a) && str_eq(self.covariances[i].1.as_str(), b) {
                return Some(i);
            }
            i = i + 1;
        }
        None
    }

    /// Records the covariance of the ordered pair (`a`, `b`), replacing any
    /// earlier one; the other pairs keep theirs.
    fn put_cov(&mut self, a: &str, b: &str, value: u64)
        requires
            unique_pairs(old(self).covariances@),
        ensures
            unique_pairs(final(self).covariances@),
            final(self).covs() == old(self).covs().insert((a@, b@), value),
            final(self).variables == old(self).variables,
    {
        let ghost key = (a@, b@);
        let ghost before = self.covariances@;
        match self.find_cov(a, b) {
            Some(i) => {
                self.covariances.set(i, (a.to_owned(), b.to_owned(), value));
                proof {
                    let after = self.covariances@;
                    assert(after == before.update(i as int, after[i as int]));
                    assert forall|k: (Seq<char>, Seq<char>)| #![auto]
                        cov_map(after).dom().contains(k) == cov_map(before).insert(key, value).dom().contains(k)
                    by {
                        if k != key {
                            if cov_map(before).dom().contains(k) {
                                let j: int = choose|j: int| 0 <= j < before.len() && before[j].0@ == k.0 && before[j].1@ == k.1;
                                assert(after[j].0@ == k.0 && after[j].1@ == k.1);
                            }
                        } else {
                            assert(after[i as int].0@ == k.0 && after[i as int].1@ == k.1);
                        }
                    }
                    assert forall|k: (Seq<char>, Seq<char>)| #![auto] cov_map(after).dom().contains(k)
                        implies cov_map(after)[k] == cov_map(before).insert(key, value)[k]
                    by {
                        let j: int = choose|j: int| 0 <= j < after.len() && after[j].0@ == k.0 && after[j].1@ == k.1;
                        if k == key {
                            assert(j == i);
                        } else {
                            let j0: int = choose|j0: int| 0 <= j0 < before.len() && before[j0].0@ == k.0 && before[j0].1@ == k.1;
                            assert(after[j0].0@ == k.0 && after[j0].1@ == k.1);
                            assert(j0 == j);
                        }
                    }
                    assert(cov_map(after) =~= cov_map(before).insert(key, value));
                }
            },
            None => {
                self.covariances.push((a.to_owned(), b.to_owned(), value));
                proof {
                    let after = self.covariances@;
                    assert(after == before.push(after[before.len() as int]));
                    assert forall|k: (Seq<char>, Seq<char>)| #![auto]
                        cov_map(after).dom().contains(k) == cov_map(before).insert(key, value).dom().contains(k)
                    by {
                        if cov_map(before).dom().contains(k) {
                            let j: int = choose|j: int| 0 <= j < before.len() && before[j].0@ == k.0 && before[j].1@ == k.1;
                            assert(after[j].0@ == k.0 && after[j].1@ == k.1);
                        }
                        if k == key {
                            assert(after[before.len() as int].0@ == k.0 && after[before.len() as int].1@ == k.1);
                        }
                    }
                    assert forall|k: (Seq<char>, Seq<char>)| #![auto] cov_map(after).dom().contains(k)
                        implies cov_map(after)[k] == cov_map(before).insert(key, value)[k]
                    by {
                        let j: int = choose|j: int| 0 <= j < after.len() && after[j].0@ == k.0 && after[j].1@ == k.1;
                        if k == key {
                            assert(j == before.len());
                        } else {
                            let j0: int = choose|j0: int| 0 <= j0 < before.len() && before[j0].0@ == k.0 && before[j0].1@ == k.1;
                            assert(after[j0].0@ == k.0 && after[j0].1@ == k.1);
                            assert(j0 == j);
                        }
                    }
                    assert(cov_map(after) =~= cov_map(before).insert(key, value));
                }
            },
        }
    }

    /// Sets the covariance of `a` and `b` (bits of the value), for both orders
    /// of the pair.
    pub fn set_covariance(&mut self, a: &str, b: &str, value: u64)
        requires
            old(self).wf(),
        ensures
            final(self).wf(),
            final(self).covs() == old(self).covs().insert((a@, b@), value).insert((b@, a@), value),
            final(self).vars() == old(self).vars(),
    {
        self.put_cov(a, b, value);
        self.put_cov(b, a, value);
        proof {
            let m0 = old(self).covs();
            let m = self.covs();
            assert forall|x: Seq<char>, y: Seq<char>| #[trigger] m.dom().contains((x, y))
                implies m.dom().contains((y, x)) && m[(y, x)] == m[(x, y)]
            by {
                if (x, y) != (a@, b@) && (x, y) != (b@, a@) {
                    assert(m0.dom().contains((x, y)));
                    assert(m0.dom().contains((y, x)));
                }
            }
        }
    }

    /// The covariance of `a` and `b` (bits); zero, the bits of `0.0`, when
    /// none was set.
    pub fn covariance(&self, a: &str, b: &str) -> (r: u64)
        requires
            self.wf(),
        ensures
            r == self.covariance_of(a@, b@),
    {
        match self.find_cov(a, b) {
            Some(i) => {
                proof {
                    let s = self.covariances@;
                    let j: int = choose|j: int| 0 <= j < s.len() && s[j].0@ == a@ && s[j].1@ == b@;
                    assert(self.covs().dom().contains((a@, b@)));
                    assert(j == i);
                }
                self.covariances[i].2
            },
            None => 0,
        }
    }
}

impl<V> Default for SystemState<V> {
    /// An empty state.
    fn default() -> (r: Self)
        ensures
            r.wf(),
            r.vars() == Map::<Seq<char>, V>::empty(),
            r.covs() == Map::<(Seq<char>, Seq<char>), u64>::empty(),
    {
        Self::new()
    }
}

} // verus!
