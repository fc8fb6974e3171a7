//! A table keyed by text, in which each key occurs once.

use vstd::prelude::*;

use crate::text::same;

verus! {

/// Values by key, in the order in which the keys were first entered.
pub struct Table<V> {
    pub entries: Vec<(String, V)>,
}

/// Whether `k` is the key of some entry.
pub open spec fn has_key<V>(entries: Seq<(String, V)>, k: Seq<char>) -> bool {
    exists|i: int| 0 <= i < entries.len() && (#[trigger] entries[i]).0@ == k
}

/// An index at which the key `k` stands.
pub open spec fn key_index<V>(entries: Seq<(String, V)>, k: Seq<char>) -> int {
    choose|i: int| 0 <= i < entries.len() && (#[trigger] entries[i]).0@ == k
}

/// No key occurs twice.
pub open spec fn keys_differ<V>(entries: Seq<(String, V)>) -> bool {
    forall|i: int, j: int|
        0 <= i < j < entries.len() ==> (#[trigger] entries[i]).0@ != (#[trigger] entries[j]).0@
}

impl<V> View for Table<V> {
    type V = Map<Seq<char>, V>;

    open spec fn view(&self) -> Map<Seq<char>, V> {
        Map::new(
            |k: Seq<char>| has_key(self.entries@, k),
            |k: Seq<char>| self.entries@[key_index(self.entries@, k)].1,
        )
    }
}

impl<V> Table<V> {
    /// Each key occurs once.
    pub open spec fn wf(&self) -> bool {
        keys_differ(self.entries@)
    }

    /// The entry at an index is what the table holds for its key.
    pub proof fn lemma_entry(&self, i: int)
        requires
            self.wf(),
            0 <= i < self.entries@.len(),
        ensures
            self@.dom().contains(self.entries@[i].0@),
            self@[self.entries@[i].0@] == self.entries@[i].1,
            key_index(self.entries@, self.entries@[i].0@) == i,
    {
        let k = self.entries@[i].0@;
        assert(has_key(self.entries@, k));
        let j = key_index(self.entries@, k);
        assert(0 <= j < self.entries@.len() && self.entries@[j].0@ == k);
        if i < j {
        } else if j < i {
        }
    }

    /// A table without entries.
    pub fn new() -> (r: Self)
        ensures
            r.wf(),
            r.entries@.len() == 0,
            r@ == Map::<Seq<char>, V>::empty(),
    {
        let r: Table<V> = Table { entries: Vec::new() };
        assert(r@ =~= Map::<Seq<char>, V>::empty());
        r
    }

    /// Where a key stands.
    pub fn find(&self, key: &str) -> (r: Option<usize>)
        requires
            self.wf(),
        ensures
            match r {
                Some(i) => i < self.entries@.len() && self.entries@[i as int].0@ == key@
                    && self@.dom().contains(key@) && self@[key@] == self.entries@[i as int].1
                    && key_index(self.entries@, key@) == i,
                None => !self@.dom().contains(key@),
            },
    {
        for i in 0..self.entries.len()
            invariant
                self.wf(),
                forall|j: int| 0 <= j < i ==> (#[trigger] self.entries@[j]).0@ != key@,
        {
            if same(self.entries[i].0.as_str(), key) {
                proof {
                    self.lemma_entry(i as int);
                }
                return Some(i);
            }
        }
        None
    }

    /// What the table holds for a key.
    pub fn get(&self, key: &str) -> (r: Option<&V>)
        requires
            self.wf(),
        ensures
            match r {
                Some(v) => self@.dom().contains(key@) && *v == self@[key@],
                None => !self@.dom().contains(key@),
            },
    {
        match self.find(key) {
            Some(i) => Some(&self.entries[i].1),
            None => None,
        }
    }

    /// Enter a value, in place of what the table held for the key.
    pub fn insert(&mut self, key: String, value: V)
        requires
            old(self).wf(),
        ensures
            final(self).wf(),
            final(self)@ == old(self)@.insert(key@, value),
            old(self)@.dom().contains(key@) ==> final(self).entries@ == old(self).entries@.update(
                key_index(old(self).entries@, key@),
                (key, value),
            ),
            !old(self)@.dom().contains(key@) ==> final(self).entries@ == old(self).entries@.push(
                (key, value),
            ),
    {
        let ghost k = key@;
        let ghost v = value;
        match self.find(key.as_str()) {
            Some(i) => {
                self.entries[i] = (key, value);
                proof {
                    let a = old(self).entries@;
                    let b = self.entries@;
                    assert(b == a.update(i as int, b[i as int]));
                    assert forall|x: int, y: int| 0 <= x < y < b.len() implies (#[trigger] b[x]).0@
                        != (#[trigger] b[y]).0@ by {
                        assert(a[x].0@ != a[y].0@);
                    }
                    assert forall|q: Seq<char>| has_key(b, q) == has_key(a, q) by {
                        if has_key(a, q) {
                            let x = key_index(a, q);
                            assert(b[x].0@ == q);
                        }
                        if has_key(b, q) {
                            let x = key_index(b, q);
                            assert(a[x].0@ == q);
                        }
                    }
                    assert forall|q: Seq<char>| has_key(b, q) implies self@[q] == old(self)@.insert(
                        k,
                        v,
                    )[q] by {
                        let x = key_index(b, q);
                        assert(0 <= x < b.len() && b[x].0@ == q);
                        self.lemma_entry(x);
                        if x != i {
                            old(self).lemma_entry(x);
                        }
                    }
                    assert(self@ =~= old(self)@.insert(k, v));
                }
            },
            None => {
                self.entries.push((key, value));
                proof {
                    let a = old(self).entries@;
                    let b = self.entries@;
                    let n = a.len() as int;
                    assert forall|x: int| 0 <= x < n implies (#[trigger] a[x]).0@ != k by {
                        assert(!has_key(a, k));
                    }
                    assert forall|x: int, y: int| 0 <= x < y < b.len() implies (#[trigger] b[x]).0@
                        != (#[trigger] b[y]).0@ by {
                        assert(b[x] == a[x]);
                    }
                    assert forall|q: Seq<char>| #[trigger]
                        has_key(b, q) == (has_key(a, q) || q == k) by {
                        if has_key(a, q) {
                            let x = key_index(a, q);
                            assert(b[x].0@ == q);
                        }
                        if q == k {
                            assert(b[n].0@ == k);
                        }
                        if has_key(b, q) {
                            let x = key_index(b, q);
                            if x < n {
                                assert(a[x].0@ == q);
                            }
                        }
                    }
                    assert forall|q: Seq<char>| has_key(b, q) implies self@[q] == old(self)@.insert(
                        k,
                        v,
                    )[q] by {
                        let x = key_index(b, q);
                        assert(0 <= x < b.len() && b[x].0@ == q);
                        self.lemma_entry(x);
                        if x < n {
                            old(self).lemma_entry(x);
                        }
                    }
                    assert(self@ =~= old(self)@.insert(k, v));
                }
            },
        }
    }

    /// Take a key out of the table.
    pub fn remove(&mut self, key: &str) -> (r: Option<V>)
        requires
            old(self).wf(),
        ensures
            final(self).wf(),
            final(self)@ == old(self)@.remove(key@),
            match r {
                Some(v) => old(self)@.dom().contains(key@) && v == old(self)@[key@]
                    && final(self).entries@ == old(self).entries@.remove(
                    key_index(old(self).entries@, key@),
                ),
                None => !old(self)@.dom().contains(key@) && final(self).entries@
                    == old(self).entries@,
            },
    {
        match self.find(key) {
            Some(i) => {
                let (_, v) = self.entries.remove(i);
                proof {
                    let a = old(self).entries@;
                    let b = self.entries@;
                    assert forall|x: int, y: int| 0 <= x < y < b.len() implies (#[trigger] b[x]).0@
                        != (#[trigger] b[y]).0@ by {
                        let ax = if x < i { x } else { x + 1 };
                        let ay = if y < i { y } else { y + 1 };
                        assert(b[x] == a[ax] && b[y] == a[ay]);
                    }
                    assert forall|q: Seq<char>| #[trigger]
                        has_key(b, q) == (has_key(a, q) && q != key@) by {
                        if has_key(a, q) && q != key@ {
                            let x = key_index(a, q);
                            assert(0 <= x < a.len() && a[x].0@ == q);
                            if x < i {
                                assert(b[x].0@ == q);
                            } else {
                                assert(b[x - 1].0@ == q);
                            }
                        }
                        if has_key(b, q) {
                            let x = key_index(b, q);
                            assert(0 <= x < b.len() && b[x].0@ == q);
                            let ax = if x < i { x } else { x + 1 };
                            assert(a[ax].0@ == q);
                            if q == key@ {
                                old(self).lemma_entry(ax);
                            }
                        }
                    }
                    assert forall|q: Seq<char>| has_key(b, q) implies self@[q] == old(self)@[q] by {
                        let x = key_index(b, q);
                        assert(0 <= x < b.len() && b[x].0@ == q);
                        self.lemma_entry(x);
                        let ax = if x < i { x } else { x + 1 };
                        old(self).lemma_entry(ax);
                        assert(b[x] == a[ax]);
                    }
                    assert(self@ =~= old(self)@.remove(key@));
                }
                Some(v)
            },
            None => {
                proof {
                    assert(self@ =~= old(self)@.remove(key@));
                }
                None
            },
        }
    }
}

} // verus!
