//! Orders: names by their characters, figures from the largest down, and the
//! arrangement of a list by such keys.

use vstd::prelude::*;

verus! {

/// Whether `a` comes no later than `b`, character by character.
pub open spec fn name_le(a: Seq<char>, b: Seq<char>) -> bool
    decreases a.len(),
{
    if a.len() == 0 {
        true
    } else if b.len() == 0 || a[0] > b[0] {
        false
    } else {
        a[0] < b[0] || name_le(a.skip(1), b.skip(1))
    }
}

proof fn lemma_name_total(a: Seq<char>, b: Seq<char>)
    ensures
        name_le(a, b) || name_le(b, a),
    decreases a.len(),
{
    if a.len() > 0 && b.len() > 0 {
        lemma_name_total(a.skip(1), b.skip(1));
    }
}

proof fn lemma_name_transitive(a: Seq<char>, b: Seq<char>, c: Seq<char>)
    requires
        name_le(a, b),
        name_le(b, c),
    ensures
        name_le(a, c),
    decreases a.len(),
{
    if a.len() > 0 && b.len() > 0 && c.len() > 0 && a[0] == b[0] && b[0] == c[0] {
        lemma_name_transitive(a.skip(1), b.skip(1), c.skip(1));
    }
}

/// A key by which a list can be arranged.
pub trait Ranked: Sized {
    /// Whether `self` may stand before `other`.
    spec fn ranks(&self, other: &Self) -> bool;

    proof fn total(a: &Self, b: &Self)
        ensures
            a.ranks(b) || b.ranks(a),
    ;

    proof fn transitive(a: &Self, b: &Self, c: &Self)
        requires
            a.ranks(b),
            b.ranks(c),
        ensures
            a.ranks(c),
    ;

    fn may_precede(&self, other: &Self) -> (r: bool)
        ensures
            r == self.ranks(other),
    ;
}

/// A display name, ranked from the first in alphabetical order.
pub struct Name(pub Vec<char>);

impl Ranked for Name {
    open spec fn ranks(&self, other: &Self) -> bool {
        name_le(self.0@, other.0@)
    }

    proof fn total(a: &Self, b: &Self) {
        lemma_name_total(a.0@, b.0@);
    }

    proof fn transitive(a: &Self, b: &Self, c: &Self) {
        lemma_name_transitive(a.0@, b.0@, c.0@);
    }

    fn may_precede(&self, other: &Self) -> (r: bool) {
        let mut i: usize = 0;
        assert(self.0@.skip(0) =~= self.0@);
        assert(other.0@.skip(0) =~= other.0@);
        while i < self.0.len()
            invariant
                i <= self.0.len(),
                i <= other.0.len(),
                name_le(self.0@, other.0@) == name_le(self.0@.skip(i as int), other.0@.skip(i as int)),
            decreases self.0.len() - i,
        {
            if i == other.0.len() {
                return false;
            }
            let a: char = self.0[i];
            let b: char = other.0[i];
            if a > b {
                return false;
            }
            if a < b {
                return true;
            }
            assert(self.0@.skip(i as int).skip(1) =~= self.0@.skip(i + 1));
            assert(other.0@.skip(i as int).skip(1) =~= other.0@.skip(i + 1));
            i = i + 1;
        }
        true
    }
}

/// A rate, ranked from the largest down.
pub struct Busiest(pub u128);

impl Ranked for Busiest {
    open spec fn ranks(&self, other: &Self) -> bool {
        self.0 >= other.0
    }

    proof fn total(a: &Self, b: &Self) {
    }

    proof fn transitive(a: &Self, b: &Self, c: &Self) {
    }

    fn may_precede(&self, other: &Self) -> (r: bool) {
        self.0 >= other.0
    }
}

/// `out` is `items` in the order `p`: each item stands in it once, by rank, and
/// items of equal rank keep their order.
pub open spec fn is_sorting<T, K: Ranked>(
    p: Seq<int>,
    items: Seq<T>,
    keys: Seq<K>,
    out: Seq<T>,
) -> bool {
    &&& p.len() == items.len()
    &&& out.len() == items.len()
    &&& forall|i: int| 0 <= i < p.len() ==> 0 <= #[trigger] p[i] < items.len()
    &&& forall|i: int| 0 <= i < p.len() ==> #[trigger] out[i] == items[p[i]]
    &&& forall|k: int| 0 <= k < items.len() ==> #[trigger] p.contains(k)
    &&& forall|i: int, j: int| 0 <= i < j < p.len() ==> p[i] != p[j]
    &&& forall|i: int, j: int| 0 <= i < j < p.len() ==> keys[p[i]].ranks(&keys[p[j]])
    &&& forall|i: int, j: int|
        0 <= i < j < p.len() && keys[p[j]].ranks(&keys[p[i]]) ==> p[i] < p[j]
}

/// `out` is `items` arranged by `keys`.
pub open spec fn sorted_by<T, K: Ranked>(items: Seq<T>, keys: Seq<K>, out: Seq<T>) -> bool {
    exists|p: Seq<int>| is_sorting(p, items, keys, out)
}

/// Arrange items by their keys.
pub fn sorted<T, K: Ranked>(items: Vec<T>, keys: &Vec<K>) -> (out: Vec<T>)
    requires
        items@.len() == keys@.len(),
    ensures
        sorted_by(items@, keys@, out@),
{
    let ghost all = items@;
    let mut items: Vec<T> = items;
    let mut out: Vec<T> = Vec::new();
    let mut at: Vec<usize> = Vec::new();
    let ghost p: Seq<int> = Seq::empty();
    while items.len() > 0
        invariant
            items@.len() <= all.len() == keys@.len(),
            items@ == all.take(items@.len() as int),
            p.len() == all.len() - items@.len(),
            out@.len() == p.len(),
            at@.len() == p.len(),
            forall|i: int| 0 <= i < p.len() ==> #[trigger] at@[i] == p[i],
            forall|i: int| 0 <= i < p.len() ==> items@.len() <= #[trigger] p[i] < all.len(),
            forall|i: int| 0 <= i < p.len() ==> #[trigger] out@[i] == all[p[i]],
            forall|k: int| items@.len() <= k < all.len() ==> #[trigger] p.contains(k),
            forall|i: int, j: int| 0 <= i < j < p.len() ==> p[i] != p[j],
            forall|i: int, j: int| 0 <= i < j < p.len() ==> keys@[p[i]].ranks(&keys@[p[j]]),
            forall|i: int, j: int|
                0 <= i < j < p.len() && keys@[p[j]].ranks(&keys@[p[i]]) ==> p[i] < p[j],
        decreases items@.len(),
    {
        let m: usize = items.len() - 1;
        let mut pos: usize = 0;
        while pos < at.len() && !keys[m].may_precede(&keys[at[pos]])
            invariant
                m < keys@.len() == all.len(),
                pos <= at@.len(),
                at@.len() == p.len(),
                forall|i: int| 0 <= i < p.len() ==> #[trigger] at@[i] == p[i],
                forall|i: int| 0 <= i < p.len() ==> m < #[trigger] p[i] < all.len(),
                forall|i: int|
                    0 <= i < pos ==> !keys@[m as int].ranks(&keys@[#[trigger] p[i]]),
            decreases at@.len() - pos,
        {
            pos = pos + 1;
        }
        let ghost before = p;
        proof {
            assert forall|i: int| pos <= i < p.len() implies keys@[m as int].ranks(
                &keys@[#[trigger] p[i]],
            ) by {
                if i > pos {
                    K::transitive(&keys@[m as int], &keys@[p[pos as int]], &keys@[p[i]]);
                }
            }
            assert forall|i: int| 0 <= i < pos implies keys@[#[trigger] p[i]].ranks(
                &keys@[m as int],
            ) by {
                K::total(&keys@[m as int], &keys@[p[i]]);
            }
        }
        match items.pop() {
            Some(x) => {
                assert(x == all[m as int]);
                out.insert(pos, x);
            },
            None => {},
        }
        at.insert(pos, m);
        proof {
            p = before.insert(pos as int, m as int);
            assert(items@ =~= all.take(m as int));
            assert forall|k: int| m <= k < all.len() implies #[trigger] p.contains(k) by {
                if k == m {
                    assert(p[pos as int] == m);
                } else {
                    assert(before.contains(k));
                    let i = choose|i: int| 0 <= i < before.len() && before[i] == k;
                    if i < pos {
                        assert(p[i] == k);
                    } else {
                        assert(p[i + 1] == k);
                    }
                }
            }
        }
    }
    assert(is_sorting(p, all, keys@, out@));
    out
}

// ---- Laws --------------------------------------------------------------------

/// Names are ordered as in a dictionary: by the first character in which they differ,
/// and one that begins another comes before it.
pub proof fn law_names_are_in_dictionary_order(
    head: Seq<char>,
    a: Seq<char>,
    b: Seq<char>,
)
    ensures
        name_le(head, head + b),
        a.len() > 0 ==> !name_le(head + a, head),
        a.len() > 0 && b.len() > 0 && a[0] < b[0] ==> name_le(head + a, head + b) && !name_le(
            head + b,
            head + a,
        ),
    decreases head.len(),
{
    if head.len() > 0 {
        law_names_are_in_dictionary_order(head.skip(1), a, b);
        assert((head + a).skip(1) =~= head.skip(1) + a);
        assert((head + b).skip(1) =~= head.skip(1) + b);
    } else {
        assert(head + a =~= a);
        assert(head + b =~= b);
    }
}

/// Two names of which each comes no later than the other are the same.
pub proof fn law_equal_names_are_the_same(a: Seq<char>, b: Seq<char>)
    requires
        name_le(a, b),
        name_le(b, a),
    ensures
        a == b,
    decreases a.len(),
{
    if a.len() > 0 && b.len() > 0 {
        law_equal_names_are_the_same(a.skip(1), b.skip(1));
        assert(a =~= seq![a[0]] + a.skip(1));
        assert(b =~= seq![b[0]] + b.skip(1));
    } else {
        assert(a =~= b);
    }
}

} // verus!
