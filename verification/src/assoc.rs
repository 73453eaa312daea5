//! A map whose keys are compared one by one, for keys that are not numbers.

use vstd::prelude::*;

verus! {

/// A key: two keys are the same if their views are.
pub trait Key: View + Sized {
    /// Whether the two keys are the same.
    fn same(&self, other: &Self) -> (same: bool)
        ensures
            same == (self@ == other@),
    ;
}

/// A map from keys to values, held as a list.
pub struct AssocMap<K: Key, T> {
    entries: Vec<(K, T)>,
}

impl<K: Key, T> View for AssocMap<K, T> {
    type V = Map<K::V, T>;

    closed spec fn view(&self) -> Map<K::V, T> {
        Map::new(
            |k: K::V| exists|i: int| 0 <= i < self.entries@.len() && #[trigger] self.entries@[i].0@ == k,
            |k: K::V|
                self.entries@[choose|i: int|
                    0 <= i < self.entries@.len() && #[trigger] self.entries@[i].0@ == k].1,
        )
    }
}

impl<K: Key, T> AssocMap<K, T> {
    /// No key stands in the list twice.
    pub closed spec fn wf(&self) -> bool {
        forall|i: int, j: int|
            0 <= i < self.entries@.len() && 0 <= j < self.entries@.len()
                && #[trigger] self.entries@[i].0@ == #[trigger] self.entries@[j].0@ ==> i == j
    }

    proof fn lemma_entry(&self, i: int)
        requires
            self.wf(),
            0 <= i < self.entries@.len(),
        ensures
            self@.contains_key(self.entries@[i].0@),
            self@[self.entries@[i].0@] == self.entries@[i].1,
    {
        let k = self.entries@[i].0@;
        let j = choose|j: int|
            0 <= j < self.entries@.len() && #[trigger] self.entries@[j].0@ == k;
        assert(self.entries@[i].0@ == self.entries@[j].0@);
    }

    /// An empty map.
    pub fn new() -> (map: Self)
        ensures
            map.wf(),
            map@ == Map::<K::V, T>::empty(),
    {
        let map = AssocMap { entries: Vec::new() };
        assert(map@ =~= Map::<K::V, T>::empty());
        map
    }

    fn position(&self, key: &K) -> (found: Option<usize>)
        requires
            self.wf(),
        ensures
            match found {
                Some(i) => i < self.entries@.len() && self.entries@[i as int].0@ == key@,
                None => !self@.contains_key(key@),
            },
    {
        let mut i: usize = 0;
        while i < self.entries.len()
            invariant
                i <= self.entries@.len(),
                forall|j: int| 0 <= j < i ==> #[trigger] self.entries@[j].0@ != key@,
            decreases self.entries@.len() - i,
        {
            if self.entries[i].0.same(key) {
                return Some(i);
            }
            i = i + 1;
        }
        None
    }

    /// The value of a key.
    pub fn get(&self, key: &K) -> (value: Option<&T>)
        requires
            self.wf(),
        ensures
            match value {
                Some(v) => self@.contains_key(key@) && *v == self@[key@],
                None => !self@.contains_key(key@),
            },
    {
        match self.position(key) {
            Some(i) => {
                proof {
                    self.lemma_entry(i as int);
                }
                Some(&self.entries[i].1)
            },
            None => None,
        }
    }

    /// Takes a key and its value out of the map.
    pub fn remove(&mut self, key: &K) -> (value: Option<T>)
        requires
            old(self).wf(),
        ensures
            final(self).wf(),
            final(self)@ == old(self)@.remove(key@),
            match value {
                Some(v) => old(self)@.contains_key(key@) && v == old(self)@[key@],
                None => !old(self)@.contains_key(key@),
            },
    {
        match self.position(key) {
            Some(i) => {
                proof {
                    self.lemma_entry(i as int);
                }
                let ghost before = *self;
                let (_, value) = self.entries.remove(i);
                proof {
                    let was = before.entries@;
                    let now = self.entries@;
                    assert(now =~= was.remove(i as int));
                    assert forall|a: int, b: int|
                        0 <= a < now.len() && 0 <= b < now.len() && #[trigger] now[a].0@
                            == #[trigger] now[b].0@ implies a == b by {
                        let x = if a < i { a } else { a + 1 };
                        let y = if b < i { b } else { b + 1 };
                        assert(was[x].0@ == was[y].0@);
                    }
                    assert forall|k: K::V| self@.contains_key(k) == (before@.contains_key(k) && k
                        != key@) by {
                        if self@.contains_key(k) {
                            let a = choose|a: int|
                                0 <= a < now.len() && #[trigger] now[a].0@ == k;
                            let x = if a < i { a } else { a + 1 };
                            assert(was[x].0@ == k);
                            if k == key@ {
                                assert(was[x].0@ == was[i as int].0@);
                            }
                        }
                        if before@.contains_key(k) && k != key@ {
                            let x = choose|x: int|
                                0 <= x < was.len() && #[trigger] was[x].0@ == k;
                            let a = if x < i { x } else { x - 1 };
                            assert(now[a].0@ == k);
                        }
                    }
                    assert forall|k: K::V| self@.contains_key(k) implies self@[k] == before@[k] by {
                        let a = choose|a: int| 0 <= a < now.len() && #[trigger] now[a].0@ == k;
                        let x = if a < i { a } else { a + 1 };
                        assert(was[x].0@ == k);
                        before.lemma_entry(x);
                        self.lemma_entry(a);
                    }
                    assert(self@ =~= before@.remove(key@));
                }
                Some(value)
            },
            None => {
                assert(self@ =~= self@.remove(key@));
                None
            },
        }
    }

    /// Gives a key a value, in the place of the one it has.
    pub fn insert(&mut self, key: K, value: T)
        requires
            old(self).wf(),
        ensures
            final(self).wf(),
            final(self)@ == old(self)@.insert(key@, value),
    {
        let ghost k0 = key@;
        let _ = self.remove(&key);
        let ghost before = *self;
        assert(!before@.contains_key(k0));
        self.entries.push((key, value));
        proof {
            let was = before.entries@;
            let now = self.entries@;
            let last = was.len() as int;
            assert forall|a: int| 0 <= a < last implies #[trigger] now[a].0@ != k0 by {
                assert(was[a] == now[a]);
                before.lemma_entry(a);
            }
            assert forall|a: int, b: int|
                0 <= a < now.len() && 0 <= b < now.len() && #[trigger] now[a].0@
                    == #[trigger] now[b].0@ implies a == b by {
                if a < last && b < last {
                    assert(was[a].0@ == was[b].0@);
                }
            }
            assert forall|k: K::V| self@.contains_key(k) == (before@.contains_key(k) || k == k0) by {
                if self@.contains_key(k) {
                    let a = choose|a: int| 0 <= a < now.len() && #[trigger] now[a].0@ == k;
                    if a < last {
                        assert(was[a].0@ == k);
                    }
                }
                if before@.contains_key(k) {
                    let a = choose|a: int| 0 <= a < was.len() && #[trigger] was[a].0@ == k;
                    assert(now[a].0@ == k);
                }
                assert(now[last].0@ == k0);
            }
            self.lemma_entry(last);
            assert forall|k: K::V| before@.contains_key(k) implies self@[k] == before@[k] by {
                let a = choose|a: int| 0 <= a < was.len() && #[trigger] was[a].0@ == k;
                assert(now[a].0@ == k);
                before.lemma_entry(a);
                self.lemma_entry(a);
            }
            assert(self@ =~= before@.insert(k0, value)) by {
                assert(self@.dom() =~= before@.insert(k0, value).dom());
            }
            assert(old(self)@.remove(k0).insert(k0, value) =~= old(self)@.insert(k0, value));
        }
    }
}

} // verus!
