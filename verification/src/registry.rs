//! A table of values keyed by name, in which no name occurs twice.

use vstd::prelude::*;

verus! {

/// Values registered under distinct names.
///
/// The entries are kept in a vector. Seen from outside the registry is the
/// map from each name to its value: the order of the entries is not part of
/// what it holds.
pub struct Registry<V> {
    entries: Vec<(String, V)>,
}

impl<V> View for Registry<V> {
    type V = Map<Seq<char>, V>;

    closed spec fn view(&self) -> Map<Seq<char>, V> {
        Map::new(
            |n: Seq<char>| self.position_of(n) is Some,
            |n: Seq<char>| self.entries@[self.position_of(n).unwrap()].1,
        )
    }
}

impl<V> Registry<V> {
    /// Where the entry named `name` stands, if there is one.
    closed spec fn position_of(&self, name: Seq<char>) -> Option<int> {
        if exists|i: int| 0 <= i < self.entries@.len() && (#[trigger] self.entries@[i]).0@ == name {
            Some(
                choose|i: int| 0 <= i < self.entries@.len() && (#[trigger] self.entries@[i]).0@ == name,
            )
        } else {
            None
        }
    }

    /// The registry's invariant: no two entries share a name.
    pub closed spec fn wf(&self) -> bool {
        forall|i: int, j: int|
            0 <= i < j < self.entries@.len() ==> (#[trigger] self.entries@[i]).0@ != (
            #[trigger] self.entries@[j]).0@
    }

    /// Each entry is found under its name.
    proof fn lemma_entry(&self, i: int)
        requires
            self.wf(),
            0 <= i < self.entries@.len(),
        ensures
            self.position_of(self.entries@[i].0@) == Some(i),
            self@.contains_key(self.entries@[i].0@),
            self@[self.entries@[i].0@] == self.entries@[i].1,
    {
        let name = self.entries@[i].0@;
        let c = choose|c: int| 0 <= c < self.entries@.len() && (#[trigger] self.entries@[c]).0@ == name;
        if c < i {
            assert(self.entries@[c].0@ != self.entries@[i].0@);
        } else if i < c {
            assert(self.entries@[i].0@ != self.entries@[c].0@);
        }
    }

    /// A name is registered exactly if some entry bears it.
    proof fn lemma_contains(&self, name: Seq<char>)
        ensures
            self@.contains_key(name) <==> exists|i: int|
                0 <= i < self.entries@.len() && (#[trigger] self.entries@[i]).0@ == name,
    {
    }

    /// An empty registry.
    pub fn new() -> (r: Self)
        ensures
            r.wf(),
            r@ == Map::<Seq<char>, V>::empty(),
    {
        let r = Registry { entries: Vec::new() };
        assert(r@ =~= Map::<Seq<char>, V>::empty());
        r
    }

    /// The position of the entry named `name`, if there is one.
    fn find(&self, name: &String) -> (r: Option<usize>)
        requires
            self.wf(),
        ensures
            match r {
                Some(i) => i < self.entries@.len() && self.entries@[i as int].0@ == name@,
                None => !self@.contains_key(name@),
            },
    {
        let mut i: usize = 0;
        while i < self.entries.len()
            invariant
                0 <= i <= self.entries@.len(),
                forall|j: int| 0 <= j < i ==> (#[trigger] self.entries@[j]).0@ != name@,
            decreases self.entries@.len() - i,
        {
            if self.entries[i].0 == *name {
                return Some(i);
            }
            i += 1;
        }
        proof {
            self.lemma_contains(name@);
        }
        None
    }

    /// Whether a value is registered under `name`.
    pub fn contains_key(&self, name: &String) -> (r: bool)
        requires
            self.wf(),
        ensures
            r == self@.contains_key(name@),
    {
        match self.find(name) {
            Some(i) => {
                proof {
                    self.lemma_entry(i as int);
                }
                true
            },
            None => false,
        }
    }

    /// Registers `value` under `name`.
    ///
    /// Where a value is registered under the name already, nothing changes
    /// and `value` is handed back.
    pub fn insert(&mut self, name: String, value: V) -> (r: Result<(), V>)
        requires
            old(self).wf(),
        ensures
            final(self).wf(),
            match r {
                Ok(()) => !old(self)@.contains_key(name@) && final(self)@ == old(self)@.insert(
                    name@,
                    value,
                ),
                Err(v) => old(self)@.contains_key(name@) && v == value && final(self)@ == old(
                    self,
                )@,
            },
    {
        if self.contains_key(&name) {
            return Err(value);
        }
        let ghost n = name@;
        proof {
            old(self).lemma_contains(n);
        }
        self.entries.push((name, value));
        proof {
            let last = self.entries@.len() - 1;
            assert(self.wf()) by {
                assert forall|i: int, j: int| 0 <= i < j < self.entries@.len() implies (
                #[trigger] self.entries@[i]).0@ != (#[trigger] self.entries@[j]).0@ by {
                    assert(self.entries@[i] == old(self).entries@[i]);
                    if j < last {
                        assert(self.entries@[j] == old(self).entries@[j]);
                    }
                }
            }
            assert forall|k: Seq<char>| self@.contains_key(k) <==> old(self)@.insert(
                n,
                value,
            ).contains_key(k) by {
                self.lemma_contains(k);
                old(self).lemma_contains(k);
                if old(self)@.contains_key(k) {
                    let i = choose|i: int|
                        0 <= i < old(self).entries@.len() && (#[trigger] old(self).entries@[i]).0@
                            == k;
                    assert(self.entries@[i].0@ == k);
                }
                if k == n {
                    assert(self.entries@[last].0@ == k);
                }
                if self@.contains_key(k) && k != n {
                    let i = choose|i: int|
                        0 <= i < self.entries@.len() && (#[trigger] self.entries@[i]).0@ == k;
                    assert(old(self).entries@[i].0@ == k);
                }
            }
            assert forall|k: Seq<char>| self@.contains_key(k) implies self@[k] == old(
                self,
            )@.insert(n, value)[k] by {
                let i = self.position_of(k).unwrap();
                self.lemma_contains(k);
                if i == last {
                    self.lemma_entry(last);
                } else {
                    assert(old(self).entries@[i] == self.entries@[i]);
                    old(self).lemma_entry(i);
                    self.lemma_entry(i);
                    self.lemma_entry(last);
                }
            }
            assert(self@ =~= old(self)@.insert(n, value));
        }
        Ok(())
    }

    /// Takes out the value registered under `name`, if there is one.
    pub fn remove(&mut self, name: &String) -> (r: Option<V>)
        requires
            old(self).wf(),
        ensures
            final(self).wf(),
            final(self)@ == old(self)@.remove(name@),
            match r {
                Some(v) => old(self)@.contains_key(name@) && v == old(self)@[name@],
                None => !old(self)@.contains_key(name@),
            },
    {
        match self.find(name) {
            Some(at) => {
                proof {
                    self.lemma_entry(at as int);
                }
                let entry = self.entries.remove(at);
                proof {
                    let n = name@;
                    let before = old(self).entries@;
                    let after = self.entries@;
                    assert(after == before.remove(at as int));
                    assert(self.wf()) by {
                        assert forall|i: int, j: int| 0 <= i < j < after.len() implies (
                        #[trigger] after[i]).0@ != (#[trigger] after[j]).0@ by {
                            let bi = if i < at { i } else { i + 1 };
                            let bj = if j < at { j } else { j + 1 };
                            assert(before[bi].0@ != before[bj].0@);
                        }
                    }
                    assert forall|k: Seq<char>| self@.contains_key(k) <==> old(self)@.remove(
                        n,
                    ).contains_key(k) by {
                        self.lemma_contains(k);
                        old(self).lemma_contains(k);
                        if self@.contains_key(k) {
                            let i = choose|i: int|
                                0 <= i < after.len() && (#[trigger] after[i]).0@ == k;
                            let bi = if i < at { i } else { i + 1 };
                            assert(before[bi].0@ == k);
                            if k == n {
                                if bi < at {
                                    assert(before[bi].0@ != before[at as int].0@);
                                } else {
                                    assert(before[at as int].0@ != before[bi].0@);
                                }
                            }
                        }
                        if old(self)@.contains_key(k) && k != n {
                            let i = choose|i: int|
                                0 <= i < before.len() && (#[trigger] before[i]).0@ == k;
                            let ai = if i < at { i } else { i - 1 };
                            assert(after[ai].0@ == k);
                        }
                    }
                    assert forall|k: Seq<char>| self@.contains_key(k) implies self@[k] == old(
                        self,
                    )@.remove(n)[k] by {
                        self.lemma_contains(k);
                        let i = self.position_of(k).unwrap();
                        let bi = if i < at { i } else { i + 1 };
                        assert(before[bi] == after[i]);
                        self.lemma_entry(i);
                        old(self).lemma_entry(bi);
                    }
                    assert(self@ =~= old(self)@.remove(n));
                }
                Some(entry.1)
            },
            None => {
                proof {
                    assert(self@ =~= old(self)@.remove(name@));
                }
                None
            },
        }
    }
}

} // verus!
