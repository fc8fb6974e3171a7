//! A table keyed by small plain values, in which each key occurs once.

use vstd::prelude::*;

verus! {

/// A key that can be compared by value.
pub trait Key: Copy {
    fn same_key(&self, other: &Self) -> (r: bool)
        ensures
            r == (*self == *other),
    ;
}

/// Values by key.
pub struct KeyMap<K: Key, V> {
    pub entries: Vec<(K, V)>,
}

/// Whether `k` is the key of some entry.
pub open spec fn holds_key<K, V>(entries: Seq<(K, V)>, k: K) -> bool {
    exists|i: int| 0 <= i < entries.len() && (#[trigger] entries[i]).0 == k
}

/// An index at which the key `k` stands.
pub open spec fn index_of<K, V>(entries: Seq<(K, V)>, k: K) -> int {
    choose|i: int| 0 <= i < entries.len() && (#[trigger] entries[i]).0 == k
}

impl<K: Key, V> View for KeyMap<K, V> {
    type V = Map<K, V>;

    open spec fn view(&self) -> Map<K, V> {
        Map::new(
            |k: K| holds_key(self.entries@, k),
            |k: K| self.entries@[index_of(self.entries@, k)].1,
        )
    }
}

impl<K: Key, V> KeyMap<K, V> {
    /// Each key occurs once.
    pub open spec fn wf(&self) -> bool {
        forall|i: int, j: int|
            0 <= i < j < self.entries@.len() ==> (#[trigger] self.entries@[i]).0 != (
            #[trigger] self.entries@[j]).0
    }

    /// The entry at an index is what the table holds for its key.
    pub proof fn lemma_entry(&self, i: int)
        requires
            self.wf(),
            0 <= i < self.entries@.len(),
        ensures
            self@.dom().contains(self.entries@[i].0),
            self@[self.entries@[i].0] == self.entries@[i].1,
            index_of(self.entries@, self.entries@[i].0) == i,
    {
        let k = self.entries@[i].0;
        assert(holds_key(self.entries@, k));
        let j = index_of(self.entries@, k);
        assert(0 <= j < self.entries@.len() && self.entries@[j].0 == k);
        if i < j {
        } else if j < i {
        }
    }

    /// A table without entries.
    pub fn new() -> (r: Self)
        ensures
            r.wf(),
            r.entries@.len() == 0,
            r@ == Map::<K, V>::empty(),
    {
        let r: KeyMap<K, V> = KeyMap { entries: Vec::new() };
        assert(r@ =~= Map::<K, V>::empty());
        r
    }

    /// Where a key stands.
    pub fn find(&self, key: K) -> (r: Option<usize>)
        requires
            self.wf(),
        ensures
            match r {
                Some(i) => i < self.entries@.len() && self.entries@[i as int].0 == key
                    && self@.dom().contains(key) && self@[key] == self.entries@[i as int].1,
                None => !self@.dom().contains(key),
            },
    {
        for i in 0..self.entries.len()
            invariant
                self.wf(),
                forall|j: int| 0 <= j < i ==> (#[trigger] self.entries@[j]).0 != key,
        {
            if self.entries[i].0.same_key(&key) {
                proof {
                    self.lemma_entry(i as int);
                }
                return Some(i);
            }
        }
        None
    }

    /// What the table holds for a key.
    pub fn get(&self, key: K) -> (r: Option<&V>)
        requires
            self.wf(),
        ensures
            match r {
                Some(v) => self@.dom().contains(key) && *v == self@[key],
                None => !self@.dom().contains(key),
            },
    {
        match self.find(key) {
            Some(i) => Some(&self.entries[i].1),
            None => None,
        }
    }

    /// Enter a value, in place of what the table held for the key.
    pub fn insert(&mut self, key: K, value: V)
        requires
            old(self).wf(),
        ensures
            final(self).wf(),
            final(self)@ == old(self)@.insert(key, value),
            final(self).entries@.len() == old(self).entries@.len() + if old(self)@.dom().contains(
                key,
            ) {
                0int
            } else {
                1int
            },
    {
        let ghost v = value;
        match self.find(key) {
            Some(i) => {
                self.entries[i] = (key, value);
                proof {
                    let a = old(self).entries@;
                    let b = self.entries@;
                    assert(b == a.update(i as int, (key, v)));
                    assert forall|q: K| holds_key(b, q) == holds_key(a, q) by {
                        if holds_key(a, q) {
                            let x = index_of(a, q);
                            assert(b[x].0 == q);
                        }
                        if holds_key(b, q) {
                            let x = index_of(b, q);
                            assert(a[x].0 == q);
                        }
                    }
                    assert forall|q: K| holds_key(b, q) implies self@[q]
                        == old(self)@.insert(key, v)[q] by {
                        let x = index_of(b, q);
                        assert(0 <= x < b.len() && b[x].0 == q);
                        self.lemma_entry(x);
                        if x != i {
                            old(self).lemma_entry(x);
                        }
                    }
                    assert(self@ =~= old(self)@.insert(key, v));
                }
            },
            None => {
                self.push_new(key, value);
            },
        }
    }

    /// Enter a value for a key unless the table holds one already.
    pub fn insert_first(&mut self, key: K, value: V)
        requires
            old(self).wf(),
        ensures
            final(self).wf(),
            final(self)@ == if old(self)@.dom().contains(key) {
                old(self)@
            } else {
                old(self)@.insert(key, value)
            },
            old(self)@.dom().contains(key) ==> final(self).entries@ == old(self).entries@,
            !old(self)@.dom().contains(key) ==> final(self).entries@ == old(self).entries@.push(
                (key, value),
            ),
    {
        match self.find(key) {
            Some(_) => {},
            None => {
                self.push_new(key, value);
            },
        }
    }

    fn push_new(&mut self, key: K, value: V)
        requires
            old(self).wf(),
            !old(self)@.dom().contains(key),
        ensures
            final(self).wf(),
            final(self)@ == old(self)@.insert(key, value),
            final(self).entries@ == old(self).entries@.push((key, value)),
    {
        let ghost v = value;
        self.entries.push((key, value));
        proof {
            let a = old(self).entries@;
            let b = self.entries@;
            let n = a.len() as int;
            assert forall|x: int| 0 <= x < n implies (#[trigger] a[x]).0 != key by {
                assert(!holds_key(a, key));
            }
            assert forall|x: int, y: int| 0 <= x < y < b.len() implies (#[trigger] b[x]).0 != (
            #[trigger] b[y]).0 by {
                assert(b[x] == a[x]);
            }
            assert forall|q: K| #[trigger] holds_key(b, q) == (holds_key(a, q) || q == key) by {
                if holds_key(a, q) {
                    let x = index_of(a, q);
                    assert(b[x].0 == q);
                }
                if q == key {
                    assert(b[n].0 == key);
                }
                if holds_key(b, q) {
                    let x = index_of(b, q);
                    if x < n {
                        assert(a[x].0 == q);
                    }
                }
            }
            assert forall|q: K| holds_key(b, q) implies self@[q]
                        == old(self)@.insert(key, v)[q] by {
                let x = index_of(b, q);
                assert(0 <= x < b.len() && b[x].0 == q);
                self.lemma_entry(x);
                if x < n {
                    old(self).lemma_entry(x);
                }
            }
            assert(self@ =~= old(self)@.insert(key, v));
        }
    }

    /// Drop every entry.
    pub fn clear(&mut self)
        ensures
            final(self).wf(),
            final(self).entries@.len() == 0,
            final(self)@ == Map::<K, V>::empty(),
    {
        self.entries.clear();
        assert(self@ =~= Map::<K, V>::empty());
    }

    /// Number of entries.
    pub fn len(&self) -> (r: usize)
        ensures
            r == self.entries@.len(),
    {
        self.entries.len()
    }
}

} // verus!
