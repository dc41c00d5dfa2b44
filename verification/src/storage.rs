use vstd::prelude::*;

use crate::entity::{lemma_entity_ext, Entity};
use crate::component::Data;
use crate::query::{matches_spec, QueryAccess};
use crate::registry::{DynamicId, Registry, SortedMap};

verus! {

/// A key that a [`SparseSet`] can be addressed by: it names a slot of the sparse array.
pub trait Index {
    /// The slot of the sparse array that this key names.
    spec fn index_key(&self) -> nat;

    fn as_usize(&self) -> (r: usize)
        ensures
            r as nat == self.index_key(),
    ;
}

impl Index for usize {
    open spec fn index_key(&self) -> nat {
        *self as nat
    }

    fn as_usize(&self) -> (r: usize) {
        *self
    }
}

impl Index for DynamicId {
    open spec fn index_key(&self) -> nat {
        *self as nat
    }

    fn as_usize(&self) -> (r: usize) {
        *self as usize
    }
}

impl Index for Entity {
    open spec fn index_key(&self) -> nat {
        self.spec_id() as nat
    }

    fn as_usize(&self) -> (r: usize) {
        self.id() as usize
    }
}

/// Something that carries its own index.
pub trait HasIndex {
    type Index;

    fn index(&self) -> Self::Index;
}

/// A sparse set of values indexed by a dense set of indices.
/// This is used to store components in an archetype.
pub struct SparseSet<I: Index, V> {
    indices: Vec<I>,
    dense: Vec<V>,
    sparse: Vec<Option<usize>>,
}

impl<I: Index, V> View for SparseSet<I, V> {
    type V = Map<nat, V>;

    /// The value stored under each occupied slot.
    closed spec fn view(&self) -> Map<nat, V> {
        Map::new(
            |k: nat| k < self.sparse@.len() && self.sparse@[k as int] is Some,
            |k: nat| self.dense@[self.sparse@[k as int]->0 as int],
        )
    }
}

impl<I: Index, V> SparseSet<I, V> {
    /// The indices in dense order.
    pub closed spec fn keys(&self) -> Seq<I> {
        self.indices@
    }

    /// The values in dense order.
    pub closed spec fn values(&self) -> Seq<V> {
        self.dense@
    }

    /// The number of sparse slots allocated.
    pub closed spec fn slots(&self) -> nat {
        self.sparse@.len()
    }

    pub closed spec fn wf(&self) -> bool {
        &&& self.indices@.len() == self.dense@.len()
        &&& forall|d: int|
            0 <= d < self.dense@.len() ==> {
                &&& (#[trigger] self.indices@[d]).index_key() < self.sparse@.len()
                &&& self.sparse@[self.indices@[d].index_key() as int] == Some(d as usize)
            }
        &&& forall|k: int|
            0 <= k < self.sparse@.len() && (#[trigger] self.sparse@[k]) is Some ==> {
                &&& self.sparse@[k]->0 < self.dense@.len()
                &&& self.indices@[self.sparse@[k]->0 as int].index_key() == k
            }
    }

    /// The dense position at which the key is stored.
    pub open spec fn position_of(&self, k: nat) -> int {
        choose|d: int| 0 <= d < self.keys().len() && self.keys()[d].index_key() == k
    }

    /// The domain of the view is exactly the set of keys, each held at one dense position,
    /// and the value under a key is the value at that position.
    pub proof fn lemma_view(&self)
        requires
            self.wf(),
        ensures
            self.keys().len() == self.values().len(),
            forall|k: nat|
                #![trigger self@.dom().contains(k)]
                self@.dom().contains(k) <==> exists|d: int|
                    0 <= d < self.keys().len() && (#[trigger] self.keys()[d]).index_key() == k,
            forall|d: int|
                #![trigger self.keys()[d]]
                0 <= d < self.keys().len() ==> self@.dom().contains(self.keys()[d].index_key())
                    && self@[self.keys()[d].index_key()] == self.values()[d]
                    && self.position_of(self.keys()[d].index_key()) == d,
            forall|d1: int, d2: int|
                #![trigger self.keys()[d1], self.keys()[d2]]
                0 <= d1 < self.keys().len() && 0 <= d2 < self.keys().len() && d1 != d2
                    ==> self.keys()[d1].index_key() != self.keys()[d2].index_key(),
            self@.dom().finite(),
            self@.dom().len() == self.keys().len(),
    {
        assert forall|k: nat| #![trigger self@.dom().contains(k)]
            self@.dom().contains(k) implies exists|d: int|
                0 <= d < self.keys().len() && (#[trigger] self.keys()[d]).index_key() == k by {
            let d = self.sparse@[k as int]->0 as int;
            assert(self.keys()[d].index_key() == k);
        }
        assert forall|d: int| #![trigger self.keys()[d]]
            0 <= d < self.keys().len() implies self.position_of(self.keys()[d].index_key()) == d by {
            let k = self.keys()[d].index_key();
            assert(0 <= d < self.keys().len() && self.keys()[d].index_key() == k);
            let p = self.position_of(k);
            assert(0 <= p < self.keys().len() && self.keys()[p].index_key() == k);
            assert(self.indices@[p] == self.keys()[p]);
            assert(self.indices@[d] == self.keys()[d]);
            assert(self.dense@.len() == self.dense.len());
        }
        let ks = Seq::new(self.keys().len(), |d: int| self.keys()[d].index_key());
        assert(ks.no_duplicates()) by {
            assert forall|a: int, b: int| 0 <= a < ks.len() && 0 <= b < ks.len() && a != b implies ks[a] != ks[b] by {
                assert(self.indices@[a] == self.keys()[a]);
                assert(self.indices@[b] == self.keys()[b]);
            }
        }
        assert(ks.to_set() =~= self@.dom()) by {
            assert forall|k: nat| ks.to_set().contains(k) <==> self@.dom().contains(k) by {
                if self@.dom().contains(k) {
                    let d = self.sparse@[k as int]->0 as int;
                    assert(ks[d] == k);
                }
                if ks.to_set().contains(k) {
                    let d = choose|d: int| 0 <= d < ks.len() && ks[d] == k;
                    assert(self.indices@[d] == self.keys()[d]);
                }
            }
        }
        ks.unique_seq_to_set();
    }

    pub fn new() -> (s: Self)
        ensures
            s.wf(),
            s@ == Map::<nat, V>::empty(),
            s.keys() == Seq::<I>::empty(),
            s.values() == Seq::<V>::empty(),
    {
        let s = Self { indices: Vec::new(), dense: Vec::new(), sparse: Vec::new() };
        assert(s@ =~= Map::<nat, V>::empty());
        s
    }

    /// The dense position at which `index` is stored, if it is stored.
    pub fn dense_index_of(&self, index: &I) -> (r: Option<usize>)
        requires
            self.wf(),
        ensures
            r is Some <==> self@.dom().contains(index.index_key()),
            r matches Some(d) ==> d < self.keys().len() && self.keys()[d as int].index_key()
                == index.index_key() && self.values()[d as int] == self@[index.index_key()],
    {
        let k = index.as_usize();
        if k >= self.sparse.len() {
            return None;
        }
        self.sparse[k]
    }

    pub fn contains(&self, index: &I) -> (r: bool)
        requires
            self.wf(),
        ensures
            r == self@.dom().contains(index.index_key()),
    {
        let k = index.as_usize();
        if k >= self.sparse.len() {
            return false;
        }
        self.sparse[k].is_some()
    }

    pub fn len(&self) -> (r: usize)
        requires
            self.wf(),
        ensures
            r == self.keys().len(),
            r == self@.dom().len(),
    {
        proof {
            self.lemma_view();
        }
        self.dense.len()
    }

    pub fn is_empty(&self) -> (r: bool)
        requires
            self.wf(),
        ensures
            r == (self@.dom().len() == 0),
            r == (self.keys().len() == 0),
    {
        proof {
            self.lemma_view();
        }
        self.dense.len() == 0
    }

    pub fn get(&self, index: &I) -> (r: Option<&V>)
        requires
            self.wf(),
        ensures
            r is Some <==> self@.dom().contains(index.index_key()),
            r matches Some(v) ==> *v == self@[index.index_key()],
    {
        match self.dense_index_of(index) {
            Some(d) => Some(&self.dense[d]),
            None => None,
        }
    }

    /// Stores `value` under `index`, replacing the value already stored there.
    pub fn insert(&mut self, index: I, value: V)
        requires
            old(self).wf(),
            index.index_key() < usize::MAX,
        ensures
            final(self).wf(),
            final(self)@ == old(self)@.insert(index.index_key(), value),
            old(self)@.dom().contains(index.index_key()) ==> {
                &&& final(self).keys() == old(self).keys()
                &&& final(self).values() == old(self).values().update(
                    old(self).position_of(index.index_key()),
                    value,
                )
            },
            !old(self)@.dom().contains(index.index_key()) ==> {
                &&& final(self).keys() == old(self).keys().push(index)
                &&& final(self).values() == old(self).values().push(value)
            },
    {
        proof {
            self.lemma_view();
        }
        let k = index.as_usize();
        match self.dense_index_of(&index) {
            Some(d) => {
                self.dense[d] = value;
                proof {
                    assert(old(self).position_of(k as nat) == d);
                }
                assert(self@ =~= old(self)@.insert(k as nat, value));
            },
            None => {
                let dense_index = self.dense.len();
                while self.sparse.len() <= k
                    invariant
                        self.indices@ == old(self).indices@,
                        self.dense@ == old(self).dense@,
                        old(self).sparse@.len() <= self.sparse@.len(),
                        self.sparse@.len() > old(self).sparse@.len() ==> self.sparse@.len() <= k + 1,
                        forall|j: int|
                            0 <= j < self.sparse@.len() ==> #[trigger] self.sparse@[j] == if j
                                < old(self).sparse@.len() {
                                old(self).sparse@[j]
                            } else {
                                None
                            },
                    decreases k + 1 - self.sparse@.len(),
                {
                    self.sparse.push(None);
                }
                self.sparse[k] = Some(dense_index);
                self.indices.push(index);
                self.dense.push(value);
                assert forall|d: int| 0 <= d < self.dense@.len() implies {
                    &&& (#[trigger] self.indices@[d]).index_key() < self.sparse@.len()
                    &&& self.sparse@[self.indices@[d].index_key() as int] == Some(d as usize)
                } by {
                    if d < dense_index {
                        assert(old(self).indices@[d] == self.indices@[d]);
                    }
                }
                assert forall|j: int|
                    0 <= j < self.sparse@.len() && (#[trigger] self.sparse@[j]) is Some implies {
                    &&& self.sparse@[j]->0 < self.dense@.len()
                    &&& self.indices@[self.sparse@[j]->0 as int].index_key() == j
                } by {
                    if j != k {
                        assert(old(self).sparse@[j] == self.sparse@[j]);
                    }
                }
                assert(self@ =~= old(self)@.insert(k as nat, value)) by {
                    assert forall|j: nat| #![auto] self@.dom().contains(j) <==> old(self)@.insert(k as nat, value).dom().contains(j) by {
                        if j < old(self).sparse@.len() {
                            assert(old(self).sparse@[j as int] == self.sparse@[j as int] || j == k);
                        }
                    }
                    assert forall|j: nat| #![auto] self@.dom().contains(j) implies self@[j] == old(self)@.insert(k as nat, value)[j] by {
                        if j != k {
                            assert(old(self).sparse@[j as int] == self.sparse@[j as int]);
                        }
                    }
                }
            },
        }
    }

    /// Removes the value stored under `index`; the last entry takes the freed dense position.
    pub fn remove(&mut self, index: &I) -> (r: Option<V>)
        requires
            old(self).wf(),
        ensures
            final(self).wf(),
            r is Some <==> old(self)@.dom().contains(index.index_key()),
            r matches Some(v) ==> v == old(self)@[index.index_key()],
            final(self)@ == old(self)@.remove(index.index_key()),
            old(self)@.dom().contains(index.index_key()) ==> {
                let d = old(self).position_of(index.index_key());
                &&& final(self).keys() == old(self).keys().update(d, old(self).keys().last()).drop_last()
                &&& final(self).values() == old(self).values().update(d, old(self).values().last()).drop_last()
            },
            !old(self)@.dom().contains(index.index_key()) ==> {
                &&& final(self).keys() == old(self).keys()
                &&& final(self).values() == old(self).values()
            },
    {
        proof {
            self.lemma_view();
        }
        let k = index.as_usize();
        if k >= self.sparse.len() {
            assert(self@ =~= old(self)@.remove(k as nat));
            return None;
        }
        let dense_index = match self.sparse[k] {
            Some(d) => d,
            None => {
                assert(self@ =~= old(self)@.remove(k as nat));
                return None;
            },
        };
        proof {
            assert(old(self).indices@[dense_index as int] == old(self).keys()[dense_index as int]);
            assert(old(self).position_of(k as nat) == dense_index);
        }
        self.sparse[k] = None;
        let value = self.dense.swap_remove(dense_index);
        let _removed = self.indices.swap_remove(dense_index);
        let ghost last = old(self).dense@.len() - 1;
        if dense_index != self.dense.len() {
            let swapped = self.indices[dense_index].as_usize();
            proof {
                assert(self.indices@[dense_index as int] == old(self).indices@[last]);
            }
            self.sparse[swapped] = Some(dense_index);
        }
        proof {
            assert forall|d: int| 0 <= d < self.dense@.len() implies {
                &&& (#[trigger] self.indices@[d]).index_key() < self.sparse@.len()
                &&& self.sparse@[self.indices@[d].index_key() as int] == Some(d as usize)
            } by {
                if d != dense_index {
                    assert(old(self).indices@[d] == self.indices@[d]);
                } else {
                    assert(old(self).indices@[last] == self.indices@[d]);
                }
            }
            assert forall|j: int|
                0 <= j < self.sparse@.len() && (#[trigger] self.sparse@[j]) is Some implies {
                &&& self.sparse@[j]->0 < self.dense@.len()
                &&& self.indices@[self.sparse@[j]->0 as int].index_key() == j
            } by {
                if j != k && j != old(self).indices@[last].index_key() {
                    assert(old(self).sparse@[j] == self.sparse@[j]);
                    let e = self.sparse@[j]->0 as int;
                    assert(old(self).indices@[e] == old(self).keys()[e]);
                    assert(old(self).indices@[last] == old(self).keys()[last]);
                    assert(old(self).indices@[dense_index as int] == old(self).keys()[dense_index as int]);
                    assert(e != last);
                    assert(e != dense_index);
                }
            }
            assert(self@ =~= old(self)@.remove(k as nat)) by {
                assert forall|j: nat| #![auto] self@.dom().contains(j) <==> old(self)@.remove(k as nat).dom().contains(j) by {
                    if j < self.sparse@.len() && j != k && j != old(self).indices@[last].index_key() {
                        assert(old(self).sparse@[j as int] == self.sparse@[j as int]);
                    }
                    if j == old(self).indices@[last].index_key() && j != k {
                        assert(old(self).indices@[last] == old(self).keys()[last]);
                    }
                }
                assert forall|j: nat| #![auto] self@.dom().contains(j) implies self@[j] == old(self)@.remove(k as nat)[j] by {
                    if j != old(self).indices@[last].index_key() {
                        assert(old(self).sparse@[j as int] == self.sparse@[j as int]);
                        let e = self.sparse@[j as int]->0 as int;
                        assert(old(self).indices@[e] == old(self).keys()[e]);
                        assert(old(self).indices@[dense_index as int] == old(self).keys()[dense_index as int]);
                        assert(e != last);
                    }
                }
            }
        }
        Some(value)
    }

    /// Empties the set.
    pub fn clear(&mut self)
        requires
            old(self).wf(),
        ensures
            final(self).wf(),
            final(self)@ == Map::<nat, V>::empty(),
            final(self).keys() == Seq::<I>::empty(),
            final(self).values() == Seq::<V>::empty(),
    {
        self.indices.clear();
        self.dense.clear();
        self.sparse.clear();
        assert(self@ =~= Map::<nat, V>::empty());
    }

    /// Mutable access to the value stored under `index`.
    pub fn get_mut(&mut self, index: &I) -> (r: Option<&mut V>)
        requires
            old(self).wf(),
        ensures
            r is Some <==> old(self)@.dom().contains(index.index_key()),
            r matches Some(v) ==> {
                &&& *v == old(self)@[index.index_key()]
                &&& final(self).wf()
                &&& final(self)@ == old(self)@.insert(index.index_key(), *final(v))
                &&& final(self).keys() == old(self).keys()
            },
            r is None ==> *final(self) == *old(self),
    {
        match self.dense_index_of(index) {
            Some(d) => Some(&mut self.dense[d]),
            None => None,
        }
    }

    /// The values in dense order.
    pub fn dense_iter(&self) -> (r: &[V])
        ensures
            r@ == self.values(),
    {
        self.dense.as_slice()
    }

    /// Mutable access to the values in dense order; the keys stay where they are.
    pub fn dense_iter_mut(&mut self) -> (r: &mut [V])
        requires
            old(self).wf(),
        ensures
            r@ == old(self).values(),
            final(self).keys() == old(self).keys(),
            final(self).values() == final(r)@,
            final(r)@.len() == r@.len() ==> final(self).wf() && final(self)@.dom() == old(
                self,
            )@.dom(),
    {
        self.dense.as_mut_slice()
    }

    /// The indices in dense order.
    pub fn sparse_iter(&self) -> (r: &[I])
        ensures
            r@ == self.keys(),
    {
        self.indices.as_slice()
    }

    /// Each index with its value, in dense order.
    pub fn iter(&self) -> (r: Vec<(&I, &V)>)
        requires
            self.wf(),
        ensures
            r@.len() == self.keys().len(),
            forall|d: int|
                0 <= d < r@.len() ==> *(#[trigger] r@[d]).0 == self.keys()[d] && *r@[d].1
                    == self.values()[d],
    {
        let mut r: Vec<(&I, &V)> = Vec::new();
        let n = self.dense.len();
        let mut d: usize = 0;
        while d < n
            invariant
                self.wf(),
                n == self.values().len(),
                d <= n,
                r@.len() == d,
                forall|j: int|
                    0 <= j < d ==> *(#[trigger] r@[j]).0 == self.keys()[j] && *r@[j].1
                        == self.values()[j],
            decreases n - d,
        {
            r.push((&self.indices[d], &self.dense[d]));
            d = d + 1;
        }
        r
    }

    /// The indices in dense order, with mutable access to the values.
    pub fn iter_mut(&mut self) -> (r: (&[I], &mut [V]))
        requires
            old(self).wf(),
        ensures
            r.0@ == old(self).keys(),
            r.1@ == old(self).values(),
            final(self).keys() == old(self).keys(),
            final(self).values() == final(r.1)@,
            final(r.1)@.len() == r.1@.len() ==> final(self).wf() && final(self)@.dom() == old(
                self,
            )@.dom(),
    {
        (self.indices.as_slice(), self.dense.as_mut_slice())
    }

    /// Whether every index of `self` is also an index of `other`: despite its name, this
    /// tests that `self` is a subset of `other`, and `is_subset` the reverse. Both
    /// keep their names with this meaning.
    pub fn is_superset(&self, other: &Self) -> (r: bool)
        requires
            self.wf(),
            other.wf(),
        ensures
            r == self@.dom().subset_of(other@.dom()),
    {
        proof {
            self.lemma_view();
        }
        let n = self.indices.len();
        let mut d: usize = 0;
        while d < n
            invariant
                self.wf(),
                other.wf(),
                n == self.keys().len(),
                d <= n,
                forall|j: int| 0 <= j < d ==> other@.dom().contains(#[trigger] self.keys()[j].index_key()),
            decreases n - d,
        {
            if !other.contains(&self.indices[d]) {
                return false;
            }
            d = d + 1;
        }
        proof {
            self.lemma_view();
            assert forall|k: nat| self@.dom().contains(k) implies other@.dom().contains(k) by {
                let j = choose|j: int| 0 <= j < self.keys().len() && (#[trigger] self.keys()[j]).index_key() == k;
            }
        }
        true
    }

    /// Whether every index of `other` is also an index of `self`: despite its name, this tests
    /// that `self` is a superset of `other` (see `is_superset`).
    pub fn is_subset(&self, other: &Self) -> (r: bool)
        requires
            self.wf(),
            other.wf(),
        ensures
            r == other@.dom().subset_of(self@.dom()),
    {
        other.is_superset(self)
    }

    /// Whether no index of `self` is an index of `other`.
    pub fn is_disjoint(&self, other: &Self) -> (r: bool)
        requires
            self.wf(),
            other.wf(),
        ensures
            r == self@.dom().disjoint(other@.dom()),
    {
        proof {
            self.lemma_view();
        }
        let n = self.indices.len();
        let mut d: usize = 0;
        while d < n
            invariant
                self.wf(),
                other.wf(),
                n == self.keys().len(),
                d <= n,
                forall|j: int| 0 <= j < d ==> !other@.dom().contains(#[trigger] self.keys()[j].index_key()),
            decreases n - d,
        {
            if other.contains(&self.indices[d]) {
                proof {
                    self.lemma_view();
                    assert(self@.dom().contains(self.keys()[d as int].index_key()));
                }
                return false;
            }
            d = d + 1;
        }
        proof {
            self.lemma_view();
            assert forall|k: nat| self@.dom().contains(k) implies !other@.dom().contains(k) by {
                let j = choose|j: int| 0 <= j < self.keys().len() && (#[trigger] self.keys()[j]).index_key() == k;
            }
        }
        true
    }

    /// For each index of `self`, in dense order, that `other` also holds: the index with the
    /// value that `other` stores under it.
    pub fn intersection<'a>(&'a self, other: &'a Self) -> (r: Vec<(&'a I, &'a V)>)
        requires
            self.wf(),
            other.wf(),
        ensures
            r@.map_values(|p: (&I, &V)| (*p.0, *p.1)) == intersect_spec(self.keys(), other@),
    {
        let mut r: Vec<(&I, &V)> = Vec::new();
        let n = self.indices.len();
        let mut d: usize = 0;
        while d < n
            invariant
                self.wf(),
                other.wf(),
                n == self.keys().len(),
                d <= n,
                r@.map_values(|p: (&I, &V)| (*p.0, *p.1)) == intersect_spec(self.keys().take(d as int), other@),
            decreases n - d,
        {
            let ghost before = r@;
            assert(self.keys().take(d + 1).drop_last() =~= self.keys().take(d as int));
            match other.get(&self.indices[d]) {
                Some(v) => {
                    r.push((&self.indices[d], v));
                    assert(r@.map_values(|p: (&I, &V)| (*p.0, *p.1)) =~= before.map_values(|p: (&I, &V)| (*p.0, *p.1)).push((self.keys()[d as int], *v)));
                },
                None => {},
            }
            d = d + 1;
        }
        assert(self.keys().take(n as int) =~= self.keys());
        r
    }
}

impl<I: Index, V> SparseSet<I, V> {
    /// Inserts each pair in turn, as repeated calls of [`SparseSet::insert`] would.
    pub fn extend(&mut self, items: Vec<(I, V)>)
        requires
            old(self).wf(),
            forall|j: int| 0 <= j < items@.len() ==> (#[trigger] items@[j]).0.index_key() < usize::MAX,
        ensures
            final(self).wf(),
            final(self)@ == insert_all(old(self)@, items@),
    {
        let mut items = items;
        let mut reversed: Vec<(I, V)> = Vec::new();
        let ghost all = items@;
        while items.len() > 0
            invariant
                reversed@.len() + items@.len() == all.len(),
                items@ == all.take(items@.len() as int),
                forall|j: int| 0 <= j < reversed@.len() ==> #[trigger] reversed@[j] == all[all.len() - 1 - j],
            decreases items@.len(),
        {
            let ghost before = items@;
            let p = items.pop().unwrap();
            reversed.push(p);
            assert(items@ =~= all.take(items@.len() as int));
        }
        let ghost n = all.len();
        while reversed.len() > 0
            invariant
                self.wf(),
                n == all.len(),
                reversed@.len() <= n,
                forall|j: int| 0 <= j < reversed@.len() ==> #[trigger] reversed@[j] == all[n - 1 - j],
                forall|j: int| 0 <= j < all.len() ==> (#[trigger] all[j]).0.index_key() < usize::MAX,
                self@ == insert_all(old(self)@, all.take(n - reversed@.len())),
            decreases reversed@.len(),
        {
            let ghost done = n - reversed@.len();
            let (index, value) = reversed.pop().unwrap();
            assert(all[done] == (index, value));
            self.insert(index, value);
            assert(all.take(done + 1).drop_last() =~= all.take(done));
        }
        assert(all.take(n as int) =~= all);
    }

    /// A set holding the given pairs, inserted in turn.
    pub fn from_pairs(items: Vec<(I, V)>) -> (s: Self)
        requires
            forall|j: int| 0 <= j < items@.len() ==> (#[trigger] items@[j]).0.index_key() < usize::MAX,
        ensures
            s.wf(),
            s@ == insert_all(Map::<nat, V>::empty(), items@),
    {
        let mut s = Self::new();
        s.extend(items);
        s
    }

    /// The index and value pairs, in dense order.
    pub fn into_pairs(self) -> (r: Vec<(I, V)>)
        requires
            self.wf(),
        ensures
            r@.len() == self.keys().len(),
            forall|d: int| 0 <= d < r@.len() ==> (#[trigger] r@[d]).0 == self.keys()[d] && r@[d].1 == self.values()[d],
    {
        let ghost ks = self.keys();
        let ghost vs = self.values();
        let SparseSet { mut indices, mut dense, sparse: _ } = self;
        let mut reversed: Vec<(I, V)> = Vec::new();
        while indices.len() > 0
            invariant
                indices@.len() == dense@.len(),
                ks.len() == vs.len(),
                reversed@.len() + indices@.len() == ks.len(),
                indices@ == ks.take(indices@.len() as int),
                dense@ == vs.take(dense@.len() as int),
                forall|j: int| 0 <= j < reversed@.len() ==> (#[trigger] reversed@[j]).0 == ks[ks.len() - 1 - j] && reversed@[j].1 == vs[ks.len() - 1 - j],
            decreases indices@.len(),
        {
            let i = indices.pop().unwrap();
            let v = dense.pop().unwrap();
            reversed.push((i, v));
            assert(indices@ =~= ks.take(indices@.len() as int));
            assert(dense@ =~= vs.take(dense@.len() as int));
        }
        let mut r: Vec<(I, V)> = Vec::new();
        while reversed.len() > 0
            invariant
                reversed@.len() + r@.len() == ks.len(),
                ks.len() == vs.len(),
                forall|j: int| 0 <= j < reversed@.len() ==> (#[trigger] reversed@[j]).0 == ks[ks.len() - 1 - j] && reversed@[j].1 == vs[ks.len() - 1 - j],
                forall|d: int| 0 <= d < r@.len() ==> (#[trigger] r@[d]).0 == ks[d] && r@[d].1 == vs[d],
            decreases reversed@.len(),
        {
            let p = reversed.pop().unwrap();
            r.push(p);
        }
        r
    }
}

impl<I: Index> SparseSet<I, ()> {
    /// A set holding the given indices.
    pub fn from_indices(items: Vec<I>) -> (s: Self)
        requires
            forall|j: int| 0 <= j < items@.len() ==> (#[trigger] items@[j]).index_key() < usize::MAX,
        ensures
            s.wf(),
            forall|k: nat| s@.dom().contains(k) <==> exists|j: int| 0 <= j < items@.len() && (#[trigger] items@[j]).index_key() == k,
    {
        let mut items = items;
        let mut reversed: Vec<I> = Vec::new();
        let ghost all = items@;
        while items.len() > 0
            invariant
                reversed@.len() + items@.len() == all.len(),
                items@ == all.take(items@.len() as int),
                forall|j: int| 0 <= j < reversed@.len() ==> #[trigger] reversed@[j] == all[all.len() - 1 - j],
            decreases items@.len(),
        {
            let i = items.pop().unwrap();
            reversed.push(i);
            assert(items@ =~= all.take(items@.len() as int));
        }
        let mut s = Self::new();
        let ghost n = all.len();
        while reversed.len() > 0
            invariant
                s.wf(),
                n == all.len(),
                reversed@.len() <= n,
                forall|j: int| 0 <= j < reversed@.len() ==> #[trigger] reversed@[j] == all[n - 1 - j],
                forall|j: int| 0 <= j < all.len() ==> (#[trigger] all[j]).index_key() < usize::MAX,
                forall|k: nat| s@.dom().contains(k) <==> exists|j: int| 0 <= j < n - reversed@.len() && (#[trigger] all[j]).index_key() == k,
            decreases reversed@.len(),
        {
            let ghost done = n - reversed@.len();
            let i = reversed.pop().unwrap();
            assert(all[done] == i);
            s.insert(i, ());
            assert forall|k: nat| s@.dom().contains(k) <==> exists|j: int| 0 <= j < done + 1 && (#[trigger] all[j]).index_key() == k by {
                if s@.dom().contains(k) && k != all[done].index_key() {
                    let j = choose|j: int| 0 <= j < done && (#[trigger] all[j]).index_key() == k;
                }
                if exists|j: int| 0 <= j < done + 1 && (#[trigger] all[j]).index_key() == k {
                    let j = choose|j: int| 0 <= j < done + 1 && (#[trigger] all[j]).index_key() == k;
                    if j < done {
                        assert(exists|j2: int| 0 <= j2 < done && (#[trigger] all[j2]).index_key() == k);
                    }
                }
            }
        }
        s
    }
}

impl<I: Index, V> Default for SparseSet<I, V> {
    fn default() -> (s: Self)
        ensures
            s.wf(),
            s@ == Map::<nat, V>::empty(),
    {
        Self::new()
    }
}

/// The map that inserting each pair in turn makes of `m`.
pub open spec fn insert_all<I: Index, V>(m: Map<nat, V>, items: Seq<(I, V)>) -> Map<nat, V>
    decreases items.len(),
{
    if items.len() == 0 {
        m
    } else {
        insert_all(m, items.drop_last()).insert(items.last().0.index_key(), items.last().1)
    }
}

/// The pairs that [`SparseSet::intersection`] yields: each key of `keys`, in order, that `other`
/// holds, with the value that `other` stores under it.
pub open spec fn intersect_spec<I: Index, V>(keys: Seq<I>, other: Map<nat, V>) -> Seq<(I, V)>
    decreases keys.len(),
{
    if keys.len() == 0 {
        Seq::empty()
    } else {
        let rest = intersect_spec(keys.drop_last(), other);
        let k = keys.last();
        if other.dom().contains(k.index_key()) {
            rest.push((k, other[k.index_key()]))
        } else {
            rest
        }
    }
}

} // verus!

verus! {

/// A single "column" of an archetypal table.
/// Contains all the instances of a single component type within a single archetype.
pub struct Column {
    pub(crate) id: DynamicId,
    pub(crate) storage: SparseSet<DynamicId, Data>,
}

impl HasIndex for Column {
    type Index = DynamicId;

    fn index(&self) -> (r: DynamicId)
        ensures
            r == self.spec_id(),
    {
        self.id
    }
}

impl Column {
    /// The id of the component type that the column holds.
    pub closed spec fn spec_id(&self) -> DynamicId {
        self.id
    }

    /// The component held for each entity id.
    pub closed spec fn cells(&self) -> Map<nat, Data> {
        self.storage@
    }

    pub closed spec fn wf(&self) -> bool {
        &&& self.storage.wf()
        &&& forall|e: nat| #[trigger] self.storage@.dom().contains(e) ==> self.storage@[e].type_id == self.id
    }

    pub proof fn lemma_cells_typed(&self)
        requires
            self.wf(),
        ensures
            forall|e: nat| #[trigger] self.cells().dom().contains(e) ==> self.cells()[e].type_id == self.spec_id(),
    {
    }

    pub fn new_with_id(info: DynamicId) -> (c: Self)
        ensures
            c.wf(),
            c.spec_id() == info,
            c.cells() == Map::<nat, Data>::empty(),
    {
        Self { id: info, storage: SparseSet::new() }
    }

    /// Stores the component of an entity; the component must be of the column's type.
    pub fn insert(&mut self, entity: DynamicId, component: Data)
        requires
            old(self).wf(),
            component.type_id == old(self).spec_id(),
            (entity as nat) < usize::MAX,
        ensures
            final(self).wf(),
            final(self).spec_id() == old(self).spec_id(),
            final(self).cells() == old(self).cells().insert(entity as nat, component),
    {
        self.storage.insert(entity, component);
    }

    pub fn remove(&mut self, entity: &DynamicId) -> (r: Option<Data>)
        requires
            old(self).wf(),
        ensures
            final(self).wf(),
            final(self).spec_id() == old(self).spec_id(),
            final(self).cells() == old(self).cells().remove(*entity as nat),
            r is Some <==> old(self).cells().dom().contains(*entity as nat),
            r matches Some(d) ==> d == old(self).cells()[*entity as nat],
    {
        self.storage.remove(entity)
    }

    pub fn get(&self, entity: &DynamicId) -> (r: Option<&Data>)
        requires
            self.wf(),
        ensures
            r is Some <==> self.cells().dom().contains(*entity as nat),
            r matches Some(d) ==> *d == self.cells()[*entity as nat],
    {
        self.storage.get(entity)
    }
}

/// A unique combination of components. Also maintains a list of entities that have this combination.
pub struct Archetype {
    pub(crate) id: usize,
    pub(crate) entities: SparseSet<DynamicId, ()>,
    pub(crate) component_types: Vec<DynamicId>,
    pub(crate) columns: SortedMap<Column>,
}

/// The ids are pairwise distinct.
pub open spec fn distinct_ids(ids: Seq<DynamicId>) -> bool {
    forall|i: int, j: int| 0 <= i < j < ids.len() ==> ids[i] != ids[j]
}

impl Archetype {
    pub closed spec fn spec_id(&self) -> usize {
        self.id
    }

    /// The ids of the entities in the archetype.
    pub closed spec fn members(&self) -> Set<nat> {
        self.entities@.dom()
    }

    /// The ids of the component types, ascending.
    pub closed spec fn column_ids(&self) -> Seq<DynamicId> {
        self.columns.ids()
    }

    /// For each component type, the component held for each entity.
    pub closed spec fn table(&self) -> Map<DynamicId, Map<nat, Data>> {
        Map::new(
            |c: DynamicId| self.columns.has(c),
            |c: DynamicId|
                self.columns.entries()[choose|i: int|
                    0 <= i < self.columns.entries().len() && (#[trigger] self.columns.entries()[i]).0
                        == c].1.cells(),
        )
    }

    pub closed spec fn wf(&self) -> bool {
        &&& self.entities.wf()
        &&& self.columns.wf()
        &&& distinct_ids(self.columns.ids())
        &&& forall|i: int| 0 <= i < self.columns.ids().len() ==> (#[trigger] self.columns.ids()[i] as nat) < usize::MAX
        &&& forall|i: int|
            0 <= i < self.columns.entries().len() ==> (#[trigger] self.columns.entries()[i]).1.wf()
                && self.columns.entries()[i].1.spec_id() == self.columns.entries()[i].0
    }

    /// Every entity of the archetype has a component in every column, and no column holds
    /// a component of another entity.
    pub open spec fn complete(&self) -> bool {
        forall|c: DynamicId| #[trigger] self.table().dom().contains(c) ==> self.table()[c].dom() == self.members()
    }

    proof fn lemma_table(&self)
        requires
            self.wf(),
        ensures
            forall|i: int|
                #![trigger self.columns.entries()[i]]
                0 <= i < self.columns.entries().len() ==> self.table().dom().contains(self.columns.entries()[i].0)
                    && self.table()[self.columns.entries()[i].0] == self.columns.entries()[i].1.cells(),
            forall|c: DynamicId| #![trigger self.table().dom().contains(c)]
                self.table().dom().contains(c) <==> exists|j: int| 0 <= j < self.column_ids().len() && self.column_ids()[j] == c,
            self.columns.entries().len() == self.column_ids().len(),
            forall|i: int|
                #![trigger self.column_ids()[i]]
                0 <= i < self.column_ids().len() ==> self.columns.entries()[i].0 == self.column_ids()[i],
            self.table().dom().finite(),
            self.table().dom().len() == self.column_ids().len(),
    {
        self.columns.lemma_entries_pub();
        assert forall|i: int|
            #![trigger self.columns.entries()[i]]
            0 <= i < self.columns.entries().len() implies self.table().dom().contains(self.columns.entries()[i].0)
                && self.table()[self.columns.entries()[i].0] == self.columns.entries()[i].1.cells() by {
            let c = self.columns.entries()[i].0;
            assert(self.columns.has(c));
            let j = choose|j: int| 0 <= j < self.columns.entries().len() && (#[trigger] self.columns.entries()[j]).0 == c;
            assert(self.column_ids()[i] == c);
            assert(self.column_ids()[j] == c);
            if i < j {
                assert(self.column_ids()[i] != self.column_ids()[j]);
            } else if j < i {
                assert(self.column_ids()[j] != self.column_ids()[i]);
            }
        }
        assert forall|c: DynamicId| #![trigger self.table().dom().contains(c)]
            self.table().dom().contains(c) <==> exists|j: int| 0 <= j < self.column_ids().len() && self.column_ids()[j] == c by {
            if self.table().dom().contains(c) {
                let j = choose|j: int| 0 <= j < self.columns.entries().len() && (#[trigger] self.columns.entries()[j]).0 == c;
                assert(self.column_ids()[j] == c);
            }
            if exists|j: int| 0 <= j < self.column_ids().len() && self.column_ids()[j] == c {
                let j = choose|j: int| 0 <= j < self.column_ids().len() && self.column_ids()[j] == c;
                assert(self.columns.entries()[j].0 == c);
            }
        }
        let ids = self.column_ids();
        assert(ids.no_duplicates());
        assert(ids.to_set() =~= self.table().dom());
        ids.unique_seq_to_set();
    }

    /// An archetype with one empty column for each of the ids, and no entities.
    pub fn with_component_ids(arch_id: usize, component_ids: Vec<DynamicId>) -> (a: Self)
        requires
            distinct_ids(component_ids@),
            forall|i: int| 0 <= i < component_ids@.len() ==> (#[trigger] component_ids@[i] as nat) < usize::MAX,
        ensures
            a.wf(),
            a.complete(),
            a.spec_id() == arch_id,
            a.members() == Set::<nat>::empty(),
            a.table().dom() == component_ids@.to_set(),
            forall|c: DynamicId| #[trigger] a.table().dom().contains(c) ==> a.table()[c] == Map::<nat, Data>::empty(),
    {
        let mut columns: Vec<(DynamicId, Column)> = Vec::new();
        let n = component_ids.len();
        let mut i: usize = 0;
        while i < n
            invariant
                n == component_ids@.len(),
                i <= n,
                columns@.len() == i,
                forall|j: int| 0 <= j < i ==> (#[trigger] columns@[j]).0 == component_ids@[j]
                    && columns@[j].1.wf() && columns@[j].1.spec_id() == component_ids@[j]
                    && columns@[j].1.cells() == Map::<nat, Data>::empty(),
            decreases n - i,
        {
            let id = component_ids[i];
            columns.push((id, Column::new_with_id(id)));
            i = i + 1;
        }
        let ghost cols = columns@;
        let sorted = SortedMap::new(columns);
        let a = Self {
            id: arch_id,
            entities: SparseSet::new(),
            component_types: component_ids,
            columns: sorted,
        };
        proof {
            broadcast use vstd::seq_lib::group_to_multiset_ensures;
            a.columns.lemma_entries_pub();
            let es = a.columns.entries();
            assert forall|j: int| 0 <= j < es.len() implies cols.contains(#[trigger] es[j]) by {
                assert(es.to_multiset().count(es[j]) > 0);
            }
            assert forall|j: int| 0 <= j < cols.len() implies es.contains(#[trigger] cols[j]) by {
                assert(cols.to_multiset().count(cols[j]) > 0);
            }
            assert forall|j: int, k: int| 0 <= j < k < es.len() implies es[j].0 != es[k].0 by {
                if es[j].0 == es[k].0 {
                    let x = choose|x: int| 0 <= x < cols.len() && cols[x] == es[j];
                    let y = choose|y: int| 0 <= y < cols.len() && cols[y] == es[k];
                    if x == y {
                        assert(es.to_multiset().count(es[j]) >= 2) by {
                            let rem = es.remove(k);
                            es.to_multiset_ensures();
                            assert(rem[j] == es[j]);
                            assert(rem.to_multiset().count(es[j]) > 0);
                        }
                        assert(cols.to_multiset().count(cols[x]) == 1) by {
                            let rem = cols.remove(x);
                            cols.to_multiset_ensures();
                            assert forall|z: int| 0 <= z < rem.len() implies rem[z] != cols[x] by {
                                if z < x {
                                    assert(rem[z] == cols[z]);
                                } else {
                                    assert(rem[z] == cols[z + 1]);
                                }
                            }
                            assert(rem.to_multiset().count(cols[x]) == 0);
                        }
                    } else if x < y {
                        assert(component_ids@[x] != component_ids@[y]);
                    } else {
                        assert(component_ids@[y] != component_ids@[x]);
                    }
                }
            }
            assert(distinct_ids(a.columns.ids())) by {
                assert forall|j: int, k: int| 0 <= j < k < a.columns.ids().len() implies a.columns.ids()[j] != a.columns.ids()[k] by {
                    assert(es[j].0 == a.columns.ids()[j]);
                    assert(es[k].0 == a.columns.ids()[k]);
                }
            }
            assert forall|j: int| 0 <= j < es.len() implies (#[trigger] es[j]).1.wf() && es[j].1.spec_id() == es[j].0 by {
                let x = choose|x: int| 0 <= x < cols.len() && cols[x] == es[j];
            }
            assert(a.wf());
            a.lemma_table();
            assert forall|c: DynamicId| a.table().dom().contains(c) <==> component_ids@.to_set().contains(c) by {
                if a.column_ids().contains(c) {
                    let j = choose|j: int| 0 <= j < a.column_ids().len() && a.column_ids()[j] == c;
                    assert(es[j].0 == c);
                    let x = choose|x: int| 0 <= x < cols.len() && cols[x] == es[j];
                    assert(component_ids@[x] == c);
                }
                if component_ids@.contains(c) {
                    let x = choose|x: int| 0 <= x < component_ids@.len() && component_ids@[x] == c;
                    assert(cols[x].0 == c);
                    let j = choose|j: int| 0 <= j < es.len() && es[j] == cols[x];
                    assert(a.column_ids()[j] == c);
                }
            }
            assert(a.table().dom() =~= component_ids@.to_set());
            assert forall|c: DynamicId| #[trigger] a.table().dom().contains(c) implies a.table()[c] == Map::<nat, Data>::empty() by {
                let j = choose|j: int| 0 <= j < a.column_ids().len() && a.column_ids()[j] == c;
                let x = choose|x: int| 0 <= x < cols.len() && cols[x] == es[j];
            }
            assert(a.members() =~= Set::<nat>::empty());
        }
        a
    }

    /// Adds the entity to the archetype and stores one of its components in the column of
    /// the component's type.
    pub fn insert_entity(&mut self, entity: DynamicId, component: Data)
        requires
            old(self).wf(),
            old(self).table().dom().contains(component.type_id),
            (entity as nat) < usize::MAX,
        ensures
            final(self).wf(),
            final(self).spec_id() == old(self).spec_id(),
            final(self).column_ids() == old(self).column_ids(),
            final(self).members() == old(self).members().insert(entity as nat),
            final(self).table() == old(self).table().insert(
                component.type_id,
                old(self).table()[component.type_id].insert(entity as nat, component),
            ),
    {
        proof {
            old(self).lemma_table();
        }
        self.entities.insert(entity, ());
        let tid = component.type_id;
        let ghost mid = self.columns.entries();
        match self.columns.search(&tid) {
            Some(i) => {
                let col = self.columns.value_at_mut(i);
                col.insert(entity, component);
                proof {
                    self.lemma_entries_wf(i as int);
                    assert forall|j: int| 0 <= j < self.columns.entries().len() implies (#[trigger] self.columns.entries()[j]).1.wf()
                        && self.columns.entries()[j].1.spec_id() == self.columns.entries()[j].0 by {
                        if j != i {
                            assert(self.columns.entries()[j] == mid[j]);
                        }
                    }
                    self.lemma_table();
                    old(self).lemma_table();
                    assert(self.table() =~= old(self).table().insert(tid, old(self).table()[tid].insert(entity as nat, component))) by {
                        assert forall|c: DynamicId| #![auto] self.table().dom().contains(c) implies self.table()[c]
                            == old(self).table().insert(tid, old(self).table()[tid].insert(entity as nat, component))[c] by {
                            let j = choose|j: int| 0 <= j < self.column_ids().len() && self.column_ids()[j] == c;
                            assert(self.columns.entries()[j].0 == c);
                            assert(old(self).columns.entries()[j].0 == c);
                            assert(self.columns.entries()[i as int].0 == tid);
                            assert(self.column_ids()[i as int] == tid);
                            if j < i {
                                assert(self.column_ids()[j] != self.column_ids()[i as int]);
                            } else if j > i {
                                assert(self.column_ids()[i as int] != self.column_ids()[j]);
                            }
                        }
                        assert forall|c: DynamicId| #![auto] self.table().dom().contains(c) <==> old(self).table().insert(tid, old(self).table()[tid].insert(entity as nat, component)).dom().contains(c) by {
                        }
                    }
                }
            },
            None => {},
        }
    }

    /// Removes the entity from the archetype, and its components from every column.
    pub fn remove_entity(&mut self, entity: DynamicId)
        requires
            old(self).wf(),
        ensures
            final(self).wf(),
            final(self).spec_id() == old(self).spec_id(),
            final(self).column_ids() == old(self).column_ids(),
            final(self).members() == old(self).members().remove(entity as nat),
            final(self).table().dom() == old(self).table().dom(),
            forall|c: DynamicId| #[trigger] final(self).table().dom().contains(c) ==> final(self).table()[c] == old(self).table()[c].remove(entity as nat),
    {
        let _ = self.component_drain(entity);
    }

    /// Removes the entity from the archetype, and yields its components in ascending order of
    /// their type ids.
    pub fn component_drain(&mut self, entity: DynamicId) -> (r: Vec<Data>)
        requires
            old(self).wf(),
        ensures
            final(self).wf(),
            final(self).spec_id() == old(self).spec_id(),
            final(self).column_ids() == old(self).column_ids(),
            final(self).members() == old(self).members().remove(entity as nat),
            final(self).table().dom() == old(self).table().dom(),
            forall|c: DynamicId| #[trigger] final(self).table().dom().contains(c) ==> final(self).table()[c] == old(self).table()[c].remove(entity as nat),
            r@ == drained(old(self).column_ids(), old(self).table(), entity as nat),
    {
        proof {
            old(self).lemma_table();
        }
        self.entities.remove(&entity);
        let mut out: Vec<Data> = Vec::new();
        let n = self.columns.len();
        let mut i: usize = 0;
        while i < n
            invariant
                self.wf(),
                self.id == old(self).id,
                self.entities@ == old(self).entities@.remove(entity as nat),
                self.columns.ids() == old(self).columns.ids(),
                n == self.columns.entries().len(),
                n == old(self).columns.entries().len(),
                i <= n,
                forall|j: int| 0 <= j < n ==> (#[trigger] self.columns.entries()[j]).0 == old(self).columns.entries()[j].0,
                forall|j: int| 0 <= j < i ==> (#[trigger] self.columns.entries()[j]).1.cells() == old(self).columns.entries()[j].1.cells().remove(entity as nat),
                forall|j: int| i <= j < n ==> (#[trigger] self.columns.entries()[j]) == old(self).columns.entries()[j],
                out@ == drained_cells(old(self).columns.entries().take(i as int).map_values(|p: (DynamicId, Column)| p.1.cells()), entity as nat),
            decreases n - i,
        {
            let ghost before = self.columns.entries();
            let col = self.columns.value_at_mut(i);
            let removed = col.remove(&entity);
            proof {
                self.columns.lemma_entries_pub();
                let cs = |p: (DynamicId, Column)| p.1.cells();
                assert(old(self).columns.entries().take(i + 1).map_values(cs).drop_last()
                    =~= old(self).columns.entries().take(i as int).map_values(cs));
                assert(old(self).columns.entries().take(i + 1).map_values(cs).last() == old(self).columns.entries()[i as int].1.cells());
                assert forall|j: int| 0 <= j < self.columns.entries().len() implies (#[trigger] self.columns.entries()[j]).1.wf()
                    && self.columns.entries()[j].1.spec_id() == self.columns.entries()[j].0 by {
                    if j != i {
                        assert(self.columns.entries()[j] == before[j]);
                    }
                }
            }
            match removed {
                Some(d) => out.push(d),
                None => {},
            }
            i = i + 1;
        }
        proof {
            self.lemma_table();
            let cs = |p: (DynamicId, Column)| p.1.cells();
            assert(old(self).columns.entries().take(n as int) =~= old(self).columns.entries());
            lemma_drained_cells(*old(self), entity as nat);
            assert(self.members() =~= old(self).members().remove(entity as nat));
            assert(self.table().dom() =~= old(self).table().dom());
            assert forall|c: DynamicId| #[trigger] self.table().dom().contains(c) implies self.table()[c] == old(self).table()[c].remove(entity as nat) by {
                let j = choose|j: int| 0 <= j < self.column_ids().len() && self.column_ids()[j] == c;
                assert(self.columns.entries()[j].0 == c);
                assert(old(self).columns.entries()[j].0 == c);
            }
        }
        out
    }

    /// Whether the archetype's component types are exactly the given ids.
    pub fn exclusively_contains_components(&self, component_ids: &[DynamicId]) -> (r: bool)
        requires
            self.wf(),
        ensures
            r == ((forall|i: int| 0 <= i < component_ids@.len() ==> self.table().dom().contains(#[trigger] component_ids@[i]))
                && self.column_ids().len() == component_ids@.len()),
    {
        proof {
            self.lemma_table();
        }
        let n = component_ids.len();
        let mut i: usize = 0;
        while i < n
            invariant
                self.wf(),
                n == component_ids@.len(),
                i <= n,
                forall|j: int| 0 <= j < i ==> self.table().dom().contains(#[trigger] component_ids@[j]),
            decreases n - i,
        {
            if !self.columns.contains_key(&component_ids[i]) {
                proof {
                    self.lemma_table();
                    if self.table().dom().contains(component_ids@[i as int]) {
                        assert(self.column_ids().contains(component_ids@[i as int]));
                        let j = choose|j: int| 0 <= j < self.column_ids().len() && self.column_ids()[j] == component_ids@[i as int];
                        assert(self.columns.entries()[j].0 == component_ids@[i as int]);
                    }
                }
                return false;
            }
            proof {
                self.lemma_table();
                let j = choose|j: int| 0 <= j < self.columns.entries().len() && (#[trigger] self.columns.entries()[j]).0 == component_ids@[i as int];
            }
            i = i + 1;
        }
        self.columns.len() == component_ids.len()
    }

    pub fn contains_entity(&self, entity: DynamicId) -> (r: bool)
        requires
            self.wf(),
        ensures
            r == self.members().contains(entity as nat),
    {
        self.entities.contains(&entity)
    }

    /// The column of a component type.
    pub fn get_column(&self, component_id: DynamicId) -> (r: Option<&Column>)
        requires
            self.wf(),
        ensures
            r is Some <==> self.table().dom().contains(component_id),
            r matches Some(c) ==> c.wf() && c.spec_id() == component_id && c.cells() == self.table()[component_id],
    {
        proof {
            self.lemma_table();
        }
        let r = self.columns.get(&component_id);
        proof {
            if r is Some {
                let j = choose|j: int| 0 <= j < self.columns.entries().len() && #[trigger] self.columns.entries()[j] == (component_id, *r->0);
            } else {
                if self.table().dom().contains(component_id) {
                    let j = choose|j: int| 0 <= j < self.column_ids().len() && self.column_ids()[j] == component_id;
                    assert(self.columns.entries()[j].0 == component_id);
                }
            }
        }
        r
    }

    /// The set of the archetype's component types.
    pub fn component_ids(&self) -> (r: SparseSet<DynamicId, ()>)
        requires
            self.wf(),
        ensures
            r.wf(),
            forall|c: DynamicId| r@.dom().contains(c as nat) <==> self.table().dom().contains(c),
            forall|k: nat| r@.dom().contains(k) ==> k <= u32::MAX && k < usize::MAX,
    {
        proof {
            self.lemma_table();
        }
        let ids = self.columns.iter();
        let mut r: SparseSet<DynamicId, ()> = SparseSet::new();
        let n = ids.len();
        let mut i: usize = 0;
        while i < n
            invariant
                self.wf(),
                r.wf(),
                n == ids@.len(),
                n == self.column_ids().len(),
                i <= n,
                forall|j: int| 0 <= j < n ==> (#[trigger] ids@[j]).0 == self.column_ids()[j],
                forall|k: nat| r@.dom().contains(k) <==> exists|j: int| 0 <= j < i && (#[trigger] ids@[j]).0 as nat == k,
            decreases n - i,
        {
            proof {
                self.columns.lemma_entries_pub();
            }
            r.insert(ids[i].0, ());
            proof {
                assert forall|k: nat| r@.dom().contains(k) implies exists|j: int| 0 <= j < i + 1 && (#[trigger] ids@[j]).0 as nat == k by {
                    if k != ids@[i as int].0 as nat {
                        let j = choose|j: int| 0 <= j < i && (#[trigger] ids@[j]).0 as nat == k;
                    }
                }
            }
            i = i + 1;
        }
        proof {
            self.lemma_table();
            assert forall|c: DynamicId| r@.dom().contains(c as nat) <==> self.table().dom().contains(c) by {
                if self.table().dom().contains(c) {
                    let j = choose|j: int| 0 <= j < self.column_ids().len() && self.column_ids()[j] == c;
                    assert(ids@[j].0 == c);
                }
            }
            assert forall|k: nat| r@.dom().contains(k) implies k <= u32::MAX && k < usize::MAX by {
                let j = choose|j: int| 0 <= j < n && (#[trigger] ids@[j]).0 as nat == k;
                assert(self.columns.ids()[j] == ids@[j].0);
            }
        }
        r
    }

    proof fn lemma_entries_wf(&self, i: int)
        requires
            self.wf(),
            0 <= i < self.columns.entries().len(),
        ensures
            self.columns.entries()[i].1.wf(),
            self.columns.entries()[i].1.spec_id() == self.columns.entries()[i].0,
    {
    }
}

impl Archetype {
    /// Adds an entity with one component for each column of the archetype.
    pub fn insert_components(&mut self, entity: DynamicId, components: Vec<Data>)
        requires
            old(self).wf(),
            old(self).complete(),
            !old(self).members().contains(entity as nat),
            (entity as nat) < usize::MAX,
            distinct_types(components@),
            by_type(components@).dom() == old(self).table().dom(),
        ensures
            final(self).wf(),
            final(self).complete(),
            final(self).spec_id() == old(self).spec_id(),
            final(self).column_ids() == old(self).column_ids(),
            final(self).members() == if components@.len() > 0 {
                old(self).members().insert(entity as nat)
            } else {
                old(self).members()
            },
            final(self).table().dom() == old(self).table().dom(),
            forall|c: DynamicId| #[trigger] final(self).table().dom().contains(c) ==> final(self).table()[c]
                == old(self).table()[c].insert(entity as nat, by_type(components@)[c]),
    {
        let ghost all = components@;
        let ghost t0 = old(self).table();
        proof {
            lemma_by_type(all);
        }
        let mut comps = components;
        while comps.len() > 0
            invariant
                self.wf(),
                self.spec_id() == old(self).spec_id(),
                self.column_ids() == old(self).column_ids(),
                (entity as nat) < usize::MAX,
                distinct_types(all),
                by_type(all).dom() == t0.dom(),
                forall|j: int| 0 <= j < all.len() ==> by_type(all)[(#[trigger] all[j]).type_id] == all[j],
                forall|c: DynamicId| by_type(all).dom().contains(c) ==> exists|j: int| 0 <= j < all.len() && (#[trigger] all[j]).type_id == c,
                comps@.len() <= all.len(),
                comps@ == all.take(comps@.len() as int),
                self.members() == if comps@.len() < all.len() {
                    old(self).members().insert(entity as nat)
                } else {
                    old(self).members()
                },
                self.table().dom() == t0.dom(),
                forall|c: DynamicId| #[trigger] self.table().dom().contains(c) ==> self.table()[c] == if (exists|j: int|
                    comps@.len() <= j < all.len() && (#[trigger] all[j]).type_id == c) {
                    t0[c].insert(entity as nat, by_type(all)[c])
                } else {
                    t0[c]
                },
            decreases comps@.len(),
        {
            let ghost k = comps@.len() - 1;
            let ghost before = self.table();
            assert(all[k] == comps@[k]);
            let component = comps.pop().unwrap();
            assert(comps@ =~= all.take(comps@.len() as int));
            let ghost tid = component.type_id;
            assert(by_type(all).dom().contains(tid));
            self.insert_entity(entity, component);
            proof {
                assert forall|c: DynamicId| #[trigger] self.table().dom().contains(c) implies self.table()[c] == if (exists|j: int|
                    comps@.len() <= j < all.len() && (#[trigger] all[j]).type_id == c) {
                    t0[c].insert(entity as nat, by_type(all)[c])
                } else {
                    t0[c]
                } by {
                    if c == tid {
                        assert(comps@.len() <= k < all.len() && all[k].type_id == c);
                        if exists|j: int| k + 1 <= j < all.len() && (#[trigger] all[j]).type_id == c {
                            let j = choose|j: int| k + 1 <= j < all.len() && (#[trigger] all[j]).type_id == c;
                            assert(all[k].type_id != all[j].type_id);
                        }
                        assert(before[c] == t0[c]);
                        assert(self.table()[c] =~= t0[c].insert(entity as nat, by_type(all)[c]));
                    } else {
                        if exists|j: int| comps@.len() <= j < all.len() && (#[trigger] all[j]).type_id == c {
                            let j = choose|j: int| comps@.len() <= j < all.len() && (#[trigger] all[j]).type_id == c;
                            assert(j != k);
                            assert(k + 1 <= j);
                        }
                        if exists|j: int| k + 1 <= j < all.len() && (#[trigger] all[j]).type_id == c {
                            let j = choose|j: int| k + 1 <= j < all.len() && (#[trigger] all[j]).type_id == c;
                            assert(comps@.len() <= j);
                        }
                    }
                }
            }
        }
        proof {
            assert forall|c: DynamicId| #[trigger] self.table().dom().contains(c) implies self.table()[c]
                == t0[c].insert(entity as nat, by_type(all)[c]) by {
                assert(by_type(all).dom().contains(c));
                let j = choose|j: int| 0 <= j < all.len() && (#[trigger] all[j]).type_id == c;
                assert(0 <= j < all.len() && all[j].type_id == c);
            }
            assert forall|c: DynamicId| #[trigger] self.table().dom().contains(c) implies self.table()[c].dom() == self.members() by {
                assert(old(self).table()[c].dom() == old(self).members());
                assert(by_type(all).dom().contains(c));
                let j = choose|j: int| 0 <= j < all.len() && (#[trigger] all[j]).type_id == c;
                assert(self.table()[c].dom() =~= self.members());
            }
        }
    }
}

impl Archetype {
    /// What draining a member yields: its component of each column, in ascending order of
    /// type id, each of the type of its column.
    pub proof fn lemma_drain_member(&self, e: nat)
        requires
            self.wf(),
            self.complete(),
            self.members().contains(e) || self.table().dom().len() == 0,
        ensures
            drained(self.column_ids(), self.table(), e).len() == self.column_ids().len(),
            forall|i: int| 0 <= i < self.column_ids().len() ==> drained(self.column_ids(), self.table(), e)[i]
                == self.table()[#[trigger] self.column_ids()[i]][e],
            forall|i: int| 0 <= i < self.column_ids().len() ==> (#[trigger] drained(self.column_ids(), self.table(), e)[i]).type_id
                == self.column_ids()[i],
            distinct_types(drained(self.column_ids(), self.table(), e)),
            by_type(drained(self.column_ids(), self.table(), e)) == Map::new(
                |c: DynamicId| self.table().dom().contains(c),
                |c: DynamicId| self.table()[c][e],
            ),
    {
        self.lemma_table();
        let ids = self.column_ids();
        let cols = ids.map_values(|c: DynamicId| self.table()[c]);
        assert forall|i: int| 0 <= i < cols.len() implies (#[trigger] cols[i]).dom().contains(e) by {
            let c = ids[i];
            assert(self.columns.entries()[i].0 == c);
            assert(self.table().dom().contains(c));
            if !self.members().contains(e) {
                assert(self.table().dom().len() > 0);
            }
        }
        lemma_drained_full(cols, e);
        let d = drained(ids, self.table(), e);
        assert forall|i: int| 0 <= i < ids.len() implies (#[trigger] d[i]).type_id == ids[i] by {
            let c = ids[i];
            assert(self.columns.entries()[i].0 == c);
            let col = self.columns.entries()[i].1;
            assert(col.wf() && col.spec_id() == c);
            col.lemma_cells_typed();
            assert(cols[i] == self.table()[c]);
            assert(self.table()[c] == col.cells());
        }
        lemma_by_type(d);
        let m = Map::new(|c: DynamicId| self.table().dom().contains(c), |c: DynamicId| self.table()[c][e]);
        assert forall|c: DynamicId| by_type(d).dom().contains(c) <==> m.dom().contains(c) by {
            if by_type(d).dom().contains(c) {
                let j = choose|j: int| 0 <= j < d.len() && (#[trigger] d[j]).type_id == c;
                assert(self.columns.entries()[j].0 == ids[j]);
            }
            if m.dom().contains(c) {
                let j = choose|j: int| 0 <= j < ids.len() && ids[j] == c;
                assert(d[j].type_id == c);
            }
        }
        assert forall|c: DynamicId| by_type(d).dom().contains(c) implies by_type(d)[c] == m[c] by {
            let j = choose|j: int| 0 <= j < d.len() && (#[trigger] d[j]).type_id == c;
            assert(ids[j] == c);
            assert(by_type(d)[d[j].type_id] == d[j]);
            assert(cols[j] == self.table()[ids[j]]);
            assert(d[j] == cols[j][e]);
        }
        assert(by_type(d) =~= m);
    }
}

/// Draining columns that all hold the entity yields one component per column.
pub proof fn lemma_drained_full(cols: Seq<Map<nat, Data>>, e: nat)
    requires
        forall|i: int| 0 <= i < cols.len() ==> (#[trigger] cols[i]).dom().contains(e),
    ensures
        drained_cells(cols, e).len() == cols.len(),
        forall|i: int| 0 <= i < cols.len() ==> drained_cells(cols, e)[i] == (#[trigger] cols[i])[e],
    decreases cols.len(),
{
    if cols.len() > 0 {
        let rest = cols.drop_last();
        assert forall|i: int| 0 <= i < rest.len() implies (#[trigger] rest[i]).dom().contains(e) by {
            assert(rest[i] == cols[i]);
        }
        lemma_drained_full(rest, e);
        assert(cols.last().dom().contains(e));
        assert forall|i: int| 0 <= i < cols.len() implies drained_cells(cols, e)[i] == (#[trigger] cols[i])[e] by {
            if i < cols.len() - 1 {
                assert(rest[i] == cols[i]);
            }
        }
    }
}

/// No two of the components are of the same type.
pub open spec fn distinct_types(components: Seq<Data>) -> bool {
    forall|i: int, j: int| 0 <= i < j < components.len() ==> components[i].type_id != components[j].type_id
}

/// The components keyed by their types.
pub open spec fn by_type(components: Seq<Data>) -> Map<DynamicId, Data> {
    Map::new(
        |c: DynamicId| exists|j: int| 0 <= j < components.len() && (#[trigger] components[j]).type_id == c,
        |c: DynamicId| components[choose|j: int| 0 <= j < components.len() && (#[trigger] components[j]).type_id == c],
    )
}

pub proof fn lemma_by_type(components: Seq<Data>)
    requires
        distinct_types(components),
    ensures
        forall|j: int| 0 <= j < components.len() ==> by_type(components)[(#[trigger] components[j]).type_id] == components[j],
        forall|j: int| 0 <= j < components.len() ==> by_type(components).dom().contains((#[trigger] components[j]).type_id),
        forall|c: DynamicId| by_type(components).dom().contains(c) ==> exists|j: int| 0 <= j < components.len() && (#[trigger] components[j]).type_id == c,
{
    assert forall|j: int| 0 <= j < components.len() implies by_type(components)[(#[trigger] components[j]).type_id] == components[j] by {
        let c = components[j].type_id;
        assert(by_type(components).dom().contains(c));
        let i = choose|i: int| 0 <= i < components.len() && (#[trigger] components[i]).type_id == c;
        if i < j {
            assert(components[i].type_id != components[j].type_id);
        } else if j < i {
            assert(components[j].type_id != components[i].type_id);
        }
    }
}

/// Whether one of the first `k` ids is `id`.
pub open spec fn seen(keys: Seq<DynamicId>, k: int, id: nat) -> bool {
    exists|q: int| 0 <= q < k && #[trigger] keys[q] as nat == id
}

/// The components of an entity in the given column contents, in order, skipping the columns
/// that hold none for it.
pub open spec fn drained_cells(cols: Seq<Map<nat, Data>>, e: nat) -> Seq<Data>
    decreases cols.len(),
{
    if cols.len() == 0 {
        Seq::empty()
    } else {
        let rest = drained_cells(cols.drop_last(), e);
        if cols.last().dom().contains(e) {
            rest.push(cols.last()[e])
        } else {
            rest
        }
    }
}

/// The components of an entity in a table, in the order of the given column ids.
pub open spec fn drained(ids: Seq<DynamicId>, table: Map<DynamicId, Map<nat, Data>>, e: nat) -> Seq<Data> {
    drained_cells(ids.map_values(|c: DynamicId| table[c]), e)
}

proof fn lemma_drained_cells(a: Archetype, e: nat)
    requires
        a.wf(),
    ensures
        drained(a.column_ids(), a.table(), e) == drained_cells(
            a.columns.entries().map_values(|p: (DynamicId, Column)| p.1.cells()),
            e,
        ),
{
    a.lemma_table();
    assert(a.column_ids().map_values(|c: DynamicId| a.table()[c]) =~= a.columns.entries().map_values(|p: (DynamicId, Column)| p.1.cells())) by {
        assert forall|j: int| #![trigger a.column_ids()[j]] 0 <= j < a.column_ids().len() implies a.column_ids().map_values(|c: DynamicId| a.table()[c])[j]
            == a.columns.entries().map_values(|p: (DynamicId, Column)| p.1.cells())[j] by {
            assert(a.columns.entries()[j].0 == a.column_ids()[j]);
        }
    }
}

} // verus!

verus! {

/// The ids of the first `k` entities of `list`.
pub open spec fn done_ids(list: Seq<Entity>, k: int) -> Set<nat> {
    Set::new(|e: nat| exists|j: int| 0 <= j < k && (#[trigger] list[j]).spec_id() as nat == e)
}

/// The entities of a world, the archetypes their components are stored in, and the registry
/// that hands out their ids.
pub struct Components {
    registry: Registry,
    living_entities: SparseSet<DynamicId, Entity>,
    entity_generations: SparseSet<DynamicId, u32>,
    archetypes: Vec<Archetype>,
    entity_archetypes: SparseSet<DynamicId, usize>,
    component_archetypes: SparseSet<DynamicId, SparseSet<usize, ()>>,
}

impl Components {
    pub closed spec fn spec_registry(&self) -> Registry {
        self.registry
    }

    /// The living entities by id.
    pub closed spec fn living(&self) -> Map<nat, Entity> {
        self.living_entities@
    }

    /// The current generation of every entity id ever created.
    pub closed spec fn generations(&self) -> Map<nat, u32> {
        self.entity_generations@
    }

    /// The archetype that holds each entity with components.
    pub closed spec fn placement(&self) -> Map<nat, usize> {
        self.entity_archetypes@
    }

    pub closed spec fn spec_archetypes(&self) -> Seq<Archetype> {
        self.archetypes@
    }

    /// For each component type, the archetypes that have it.
    pub closed spec fn type_index(&self) -> Map<nat, Map<nat, ()>> {
        self.component_archetypes@.map_values(|s: SparseSet<usize, ()>| s@)
    }

    pub closed spec fn wf(&self) -> bool {
        &&& self.registry.wf()
        &&& self.registry.fresh_above()
        &&& self.living_entities.wf()
        &&& self.entity_generations.wf()
        &&& self.entity_archetypes.wf()
        &&& self.component_archetypes.wf()
        &&& forall|c: nat| #[trigger] self.component_archetypes@.dom().contains(c) ==> self.component_archetypes@[c].wf()
        &&& forall|e: nat| #[trigger] self.living_entities@.dom().contains(e) ==> {
            &&& self.entity_generations@.dom().contains(e)
            &&& self.living_entities@[e].spec_id() == e
            &&& self.living_entities@[e].spec_generation() == self.entity_generations@[e]
        }
        &&& forall|e: nat| #[trigger] self.entity_generations@.dom().contains(e) ==> 1 <= e < self.registry.next()
        &&& forall|a: int| 0 <= a < self.archetypes@.len() ==> {
            &&& (#[trigger] self.archetypes@[a]).wf()
            &&& self.archetypes@[a].spec_id() == a
            &&& self.archetypes@[a].complete()
        }
        &&& forall|e: nat| #[trigger] self.entity_archetypes@.dom().contains(e) ==> {
            &&& self.entity_generations@.dom().contains(e)
            &&& self.entity_archetypes@[e] < self.archetypes@.len()
            &&& self.archetypes@[self.entity_archetypes@[e] as int].members().contains(e)
                || self.archetypes@[self.entity_archetypes@[e] as int].table().dom().len() == 0
        }
        &&& self.archetypes@.len() < usize::MAX
        &&& forall|a: int, e: nat| 0 <= a < self.archetypes@.len() && #[trigger] self.archetypes@[a].members().contains(e)
            ==> self.entity_archetypes@.dom().contains(e) && self.entity_archetypes@[e] == a
        &&& forall|c: nat, a: nat| #[trigger] self.component_archetypes@.dom().contains(c)
            && #[trigger] self.component_archetypes@[c]@.dom().contains(a) ==> {
            &&& a < self.archetypes@.len()
            &&& self.archetypes@[a as int].table().dom().contains(c as DynamicId)
        }
        &&& forall|a: int, c: DynamicId| 0 <= a < self.archetypes@.len() && #[trigger] self.archetypes@[a].table().dom().contains(c)
            ==> self.component_archetypes@.dom().contains(c as nat) && self.component_archetypes@[c as nat]@.dom().contains(a as nat)
    }

    pub fn new() -> (r: Self)
        ensures
            r.wf(),
            r.living() == Map::<nat, Entity>::empty(),
            r.generations() == Map::<nat, u32>::empty(),
            r.placement() == Map::<nat, usize>::empty(),
            r.spec_archetypes() == Seq::<Archetype>::empty(),
            forall|i: int| 0 <= i < crate::registry::builtin_names().len() ==> r.spec_registry().has_name(#[trigger] crate::registry::builtin_names()[i]),
            r.spec_registry().named() == crate::registry::builtin_ids(),
            r.spec_registry().next() == crate::registry::builtin_names().len() + 1,
            r.type_index() == Map::<nat, Map<nat, ()>>::empty(),
    {
        let r = Components {
            registry: Registry::new(),
            living_entities: SparseSet::new(),
            entity_generations: SparseSet::new(),
            archetypes: Vec::new(),
            entity_archetypes: SparseSet::new(),
            component_archetypes: SparseSet::new(),
        };
        r
    }

    pub fn registry(&self) -> (r: &Registry)
        ensures
            *r == self.spec_registry(),
    {
        &self.registry
    }

    /// A new living entity with a fresh id and generation 0, and no components.
    pub fn create_entity(&mut self) -> (e: Entity)
        requires
            old(self).wf(),
            old(self).spec_registry().next() < u32::MAX,
        ensures
            final(self).wf(),
            e.spec_id() == old(self).spec_registry().next(),
            e.spec_generation() == 0,
            !old(self).generations().dom().contains(e.spec_id() as nat),
            final(self).living() == old(self).living().insert(e.spec_id() as nat, e),
            final(self).generations() == old(self).generations().insert(e.spec_id() as nat, 0),
            final(self).placement() == old(self).placement(),
            final(self).spec_archetypes() == old(self).spec_archetypes(),
            final(self).type_index() == old(self).type_index(),
            final(self).spec_registry().next() == old(self).spec_registry().next() + 1,
            final(self).spec_registry().named() == old(self).spec_registry().named(),
    {
        let id = self.registry.create();
        let entity = Entity::new(id);
        self.entity_generations.insert(id, entity.generation());
        self.living_entities.insert(id, entity);
        entity
    }

    /// The living entity with the id, at its current generation.
    pub fn entity(&self, id: DynamicId) -> (r: Option<Entity>)
        requires
            self.wf(),
        ensures
            r is Some <==> self.living().dom().contains(id as nat),
            r matches Some(e) ==> e.spec_id() == id && e.spec_generation() == self.generations()[id as nat]
                && e == self.living()[id as nat],
    {
        if self.living_entities.contains(&id) {
            match self.entity_generations.get(&id) {
                Some(g) => {
                    let e = Entity::new_with_generation(id, *g);
                    proof {
                        lemma_entity_ext(e, self.living_entities@[id as nat]);
                    }
                    Some(e)
                },
                None => None,
            }
        } else {
            None
        }
    }

    /// The living entities, in the order they are stored.
    pub fn living_entities(&self) -> (r: &[Entity])
        requires
            self.wf(),
        ensures
            r@.len() == self.living().dom().len(),
            forall|i: int| 0 <= i < r@.len() ==> self.living().dom().contains(r@[i].spec_id() as nat)
                && #[trigger] r@[i] == self.living()[r@[i].spec_id() as nat],
            forall|e: nat| #[trigger] self.living().dom().contains(e) ==> exists|i: int| 0 <= i < r@.len() && #[trigger] r@[i] == self.living()[e],
    {
        proof {
            self.living_entities.lemma_view();
            assert forall|i: int| 0 <= i < self.living_entities.values().len() implies self.living().dom().contains(self.living_entities.values()[i].spec_id() as nat)
                && #[trigger] self.living_entities.values()[i] == self.living()[self.living_entities.values()[i].spec_id() as nat] by {
                assert(self.living_entities.keys()[i] == self.living_entities.keys()[i]);
                let k = self.living_entities.keys()[i].index_key();
                assert(self.living_entities@[k].spec_id() == k);
            }
            assert forall|e: nat| #[trigger] self.living().dom().contains(e) implies exists|i: int| 0 <= i < self.living_entities.values().len() && #[trigger] self.living_entities.values()[i] == self.living()[e] by {
                let i = choose|i: int| 0 <= i < self.living_entities.keys().len() && (#[trigger] self.living_entities.keys()[i]).index_key() == e;
            }
        }
        self.living_entities.dense_iter()
    }

    /// The entity with the id at its current generation, made living again.
    pub fn respawn(&mut self, entity: DynamicId) -> (r: Entity)
        requires
            old(self).wf(),
            old(self).generations().dom().contains(entity as nat),
        ensures
            final(self).wf(),
            r.spec_id() == entity,
            r.spec_generation() == old(self).generations()[entity as nat],
            final(self).living() == old(self).living().insert(entity as nat, r),
            final(self).generations() == old(self).generations(),
            final(self).placement() == old(self).placement(),
            final(self).spec_archetypes() == old(self).spec_archetypes(),
            final(self).type_index() == old(self).type_index(),
    {
        let g = match self.entity_generations.get(&entity) {
            Some(g) => *g,
            None => 0,
        };
        let e = Entity::new_with_generation(entity, g);
        if self.living_entities.contains(&entity) {
            proof {
                lemma_entity_ext(e, self.living_entities@[entity as nat]);
                assert(self.living_entities@.insert(entity as nat, e) =~= self.living_entities@);
            }
            e
        } else {
            self.living_entities.insert(entity, e);
            e
        }
    }

    /// The archetype that holds the entity's components.
    pub fn entity_archetype(&self, entity: DynamicId) -> (r: Option<&Archetype>)
        requires
            self.wf(),
        ensures
            r is Some <==> self.placement().dom().contains(entity as nat),
            r matches Some(a) ==> *a == self.spec_archetypes()[self.placement()[entity as nat] as int],
    {
        match self.entity_archetypes.get(&entity) {
            Some(index) => {
                let i = *index;
                Some(&self.archetypes[i])
            },
            None => None,
        }
    }

    /// The archetypes that have the component type.
    pub fn component_archetypes(&self, component_id: DynamicId) -> (r: Option<&SparseSet<usize, ()>>)
        requires
            self.wf(),
        ensures
            r is Some <==> self.type_index().dom().contains(component_id as nat),
            r matches Some(s) ==> s.wf() && s@ == self.type_index()[component_id as nat],
    {
        self.component_archetypes.get(&component_id)
    }

    /// Removes an entity that has components: it leaves its archetype and the living
    /// entities, and its generation advances. An entity without components is left as it is.
    pub fn despawn(&mut self, entity: DynamicId) -> (r: bool)
        requires
            old(self).wf(),
            old(self).placement().dom().contains(entity as nat) ==> old(self).generations()[entity as nat] < u32::MAX,
        ensures
            final(self).wf(),
            r == old(self).placement().dom().contains(entity as nat),
            !r ==> *final(self) == *old(self),
            r ==> {
                let a = old(self).placement()[entity as nat] as int;
                &&& final(self).living() == old(self).living().remove(entity as nat)
                &&& final(self).generations() == old(self).generations().insert(entity as nat, (old(self).generations()[entity as nat] + 1) as u32)
                &&& final(self).placement() == old(self).placement().remove(entity as nat)
                &&& final(self).spec_archetypes().len() == old(self).spec_archetypes().len()
                &&& forall|b: int| 0 <= b < old(self).spec_archetypes().len() && b != a ==> #[trigger] final(self).spec_archetypes()[b] == old(self).spec_archetypes()[b]
                &&& final(self).spec_archetypes()[a].members() == old(self).spec_archetypes()[a].members().remove(entity as nat)
                &&& final(self).spec_archetypes()[a].table().dom() == old(self).spec_archetypes()[a].table().dom()
                &&& forall|c: DynamicId| #[trigger] final(self).spec_archetypes()[a].table().dom().contains(c)
                    ==> final(self).spec_archetypes()[a].table()[c] == old(self).spec_archetypes()[a].table()[c].remove(entity as nat)
            },
            final(self).type_index() == old(self).type_index(),
            final(self).spec_registry() == old(self).spec_registry(),
    {
        let index = match self.entity_archetypes.get(&entity) {
            Some(i) => *i,
            None => return false,
        };
        let ghost a = index as int;
        self.archetypes[index].remove_entity(entity);
        self.living_entities.remove(&entity);
        match self.entity_generations.get_mut(&entity) {
            Some(g) => {
                *g = *g + 1;
            },
            None => {},
        }
        self.entity_archetypes.remove(&entity);
        proof {
            let o = old(self);
            assert forall|e: nat| #[trigger] self.living_entities@.dom().contains(e) implies {
                &&& self.entity_generations@.dom().contains(e)
                &&& self.living_entities@[e].spec_id() == e
                &&& self.living_entities@[e].spec_generation() == self.entity_generations@[e]
            } by {
                assert(o.living_entities@.dom().contains(e));
            }
            assert forall|e: nat| #[trigger] self.entity_generations@.dom().contains(e) implies 1 <= e < self.registry.next() by {
                assert(o.entity_generations@.dom().contains(e));
            }
            assert forall|b: int| 0 <= b < self.archetypes@.len() implies {
                &&& (#[trigger] self.archetypes@[b]).wf()
                &&& self.archetypes@[b].spec_id() == b
                &&& self.archetypes@[b].complete()
            } by {
                if b != a {
                    assert(self.archetypes@[b] == o.archetypes@[b]);
                } else {
                    assert(o.archetypes@[b].wf());
                    assert(o.archetypes@[b].complete());
                    assert forall|c: DynamicId| #[trigger] self.archetypes@[b].table().dom().contains(c) implies self.archetypes@[b].table()[c].dom() == self.archetypes@[b].members() by {
                        assert(o.archetypes@[b].table().dom().contains(c));
                        assert(o.archetypes@[b].table()[c].dom() == o.archetypes@[b].members());
                        assert(self.archetypes@[b].table()[c].dom() =~= self.archetypes@[b].members());
                    }
                }
            }
            assert forall|e: nat| #[trigger] self.entity_archetypes@.dom().contains(e) implies {
                &&& self.entity_generations@.dom().contains(e)
                &&& self.entity_archetypes@[e] < self.archetypes@.len()
                &&& self.archetypes@[self.entity_archetypes@[e] as int].members().contains(e)
                    || self.archetypes@[self.entity_archetypes@[e] as int].table().dom().len() == 0
            } by {
                assert(o.entity_archetypes@.dom().contains(e));
                let b = o.entity_archetypes@[e] as int;
                if b != a {
                    assert(self.archetypes@[b] == o.archetypes@[b]);
                }
            }
            assert forall|b: int, e: nat| 0 <= b < self.archetypes@.len() && #[trigger] self.archetypes@[b].members().contains(e)
                implies self.entity_archetypes@.dom().contains(e) && self.entity_archetypes@[e] == b by {
                if b != a {
                    assert(self.archetypes@[b] == o.archetypes@[b]);
                }
                assert(o.archetypes@[b].members().contains(e));
                assert(o.entity_archetypes@.dom().contains(e));
            }
            assert forall|c: nat, b: nat| #[trigger] self.component_archetypes@.dom().contains(c)
                && #[trigger] self.component_archetypes@[c]@.dom().contains(b) implies {
                &&& b < self.archetypes@.len()
                &&& self.archetypes@[b as int].table().dom().contains(c as DynamicId)
            } by {
                assert(o.archetypes@[b as int].table().dom().contains(c as DynamicId));
                if b != a {
                    assert(self.archetypes@[b as int] == o.archetypes@[b as int]);
                }
            }
            assert forall|b: int, c: DynamicId| 0 <= b < self.archetypes@.len() && #[trigger] self.archetypes@[b].table().dom().contains(c)
                implies self.component_archetypes@.dom().contains(c as nat) && self.component_archetypes@[c as nat]@.dom().contains(b as nat) by {
                if b != a {
                    assert(self.archetypes@[b] == o.archetypes@[b]);
                }
                assert(o.archetypes@[b].table().dom().contains(c));
            }
            assert(self.type_index() =~= o.type_index());
        }
        true
    }

    /// The components of a placed entity, by type.
    pub open spec fn components_of(&self, e: nat) -> Map<DynamicId, Data> {
        let a = self.spec_archetypes()[self.placement()[e] as int];
        Map::new(|c: DynamicId| a.table().dom().contains(c), |c: DynamicId| a.table()[c][e])
    }

    /// Appends an archetype without entities, and records it under each of its component types.
    fn push_archetype(&mut self, archetype: Archetype)
        requires
            old(self).wf(),
            archetype.wf(),
            archetype.complete(),
            archetype.members() == Set::<nat>::empty(),
            archetype.spec_id() == old(self).spec_archetypes().len(),
            old(self).spec_archetypes().len() + 1 < usize::MAX,
        ensures
            final(self).wf(),
            final(self).spec_archetypes() == old(self).spec_archetypes().push(archetype),
            final(self).living() == old(self).living(),
            final(self).generations() == old(self).generations(),
            final(self).placement() == old(self).placement(),
            final(self).spec_registry() == old(self).spec_registry(),
    {
        let ids = archetype.component_ids();
        let keys = ids.sparse_iter();
        let aid = archetype.id;
        let ghost n = self.archetypes@.len();
        proof {
            ids.lemma_view();
        }
        let mut i: usize = 0;
        while i < keys.len()
            invariant
                ids.wf(),
                keys@ == ids.keys(),
                forall|c: DynamicId| ids@.dom().contains(c as nat) <==> archetype.table().dom().contains(c),
                forall|k: nat| ids@.dom().contains(k) ==> k < usize::MAX,
                forall|j: int| 0 <= j < keys@.len() ==> ids@.dom().contains((#[trigger] keys@[j]) as nat),
                aid == n,
                n == old(self).archetypes@.len(),
                n + 1 < usize::MAX,
                i <= keys@.len(),
                self.archetypes@ == old(self).archetypes@,
                self.registry == old(self).registry,
                self.living_entities == old(self).living_entities,
                self.entity_generations == old(self).entity_generations,
                self.entity_archetypes == old(self).entity_archetypes,
                self.component_archetypes.wf(),
                forall|c: nat| #[trigger] self.component_archetypes@.dom().contains(c) ==> self.component_archetypes@[c].wf(),
                forall|c: nat, b: nat| #[trigger] self.component_archetypes@.dom().contains(c)
                    && #[trigger] self.component_archetypes@[c]@.dom().contains(b) ==> {
                    ||| b < n && self.archetypes@[b as int].table().dom().contains(c as DynamicId)
                    ||| b == n && archetype.table().dom().contains(c as DynamicId)
                },
                forall|b: int, c: DynamicId| 0 <= b < n && #[trigger] self.archetypes@[b].table().dom().contains(c)
                    ==> self.component_archetypes@.dom().contains(c as nat) && self.component_archetypes@[c as nat]@.dom().contains(b as nat),
                forall|j: int| 0 <= j < i ==> #[trigger] self.component_archetypes@.dom().contains(keys@[j] as nat)
                    && self.component_archetypes@[keys@[j] as nat]@.dom().contains(n),
            decreases keys@.len() - i,
        {
            let c = keys[i];
            let ghost before = self.component_archetypes@;
            assert(ids@.dom().contains(c as nat));
            assert(archetype.table().dom().contains(c));
            match self.component_archetypes.get_mut(&c) {
                Some(set) => {
                    set.insert(aid, ());
                },
                None => {
                    let mut set: SparseSet<usize, ()> = SparseSet::new();
                    set.insert(aid, ());
                    self.component_archetypes.insert(c, set);
                },
            }
            proof {
                assert forall|k: nat| #[trigger] self.component_archetypes@.dom().contains(k) implies self.component_archetypes@[k].wf() by {
                    if k != c as nat {
                        assert(before.dom().contains(k));
                    }
                }
                assert forall|k: nat, b: nat| #[trigger] self.component_archetypes@.dom().contains(k)
                    && #[trigger] self.component_archetypes@[k]@.dom().contains(b) implies {
                    ||| b < n && self.archetypes@[b as int].table().dom().contains(k as DynamicId)
                    ||| b == n && archetype.table().dom().contains(k as DynamicId)
                } by {
                    if k != c as nat {
                        assert(before.dom().contains(k));
                        assert(before[k]@.dom().contains(b));
                    } else if b != n {
                        assert(before.dom().contains(k));
                        assert(before[k]@.dom().contains(b));
                    }
                }
                assert forall|b: int, d: DynamicId| 0 <= b < n && #[trigger] self.archetypes@[b].table().dom().contains(d)
                    implies self.component_archetypes@.dom().contains(d as nat) && self.component_archetypes@[d as nat]@.dom().contains(b as nat) by {
                    assert(before.dom().contains(d as nat) && before[d as nat]@.dom().contains(b as nat));
                }
                assert forall|j: int| 0 <= j < i + 1 implies #[trigger] self.component_archetypes@.dom().contains(keys@[j] as nat)
                    && self.component_archetypes@[keys@[j] as nat]@.dom().contains(n) by {
                    if j < i {
                        assert(before.dom().contains(keys@[j] as nat));
                        assert(before[keys@[j] as nat]@.dom().contains(n));
                    }
                }
            }
            i = i + 1;
        }
        self.archetypes.push(archetype);
        proof {
            let o = old(self);
            assert forall|a: int| 0 <= a < self.archetypes@.len() implies {
                &&& (#[trigger] self.archetypes@[a]).wf()
                &&& self.archetypes@[a].spec_id() == a
                &&& self.archetypes@[a].complete()
            } by {
                if a < n {
                    assert(self.archetypes@[a] == o.archetypes@[a]);
                }
            }
            assert forall|e: nat| #[trigger] self.entity_archetypes@.dom().contains(e) implies {
                &&& self.entity_generations@.dom().contains(e)
                &&& self.entity_archetypes@[e] < self.archetypes@.len()
                &&& self.archetypes@[self.entity_archetypes@[e] as int].members().contains(e)
                    || self.archetypes@[self.entity_archetypes@[e] as int].table().dom().len() == 0
            } by {
                assert(o.entity_archetypes@.dom().contains(e));
                assert(self.archetypes@[o.entity_archetypes@[e] as int] == o.archetypes@[o.entity_archetypes@[e] as int]);
            }
            assert forall|a: int, e: nat| 0 <= a < self.archetypes@.len() && #[trigger] self.archetypes@[a].members().contains(e)
                implies self.entity_archetypes@.dom().contains(e) && self.entity_archetypes@[e] == a by {
                if a < n {
                    assert(self.archetypes@[a] == o.archetypes@[a]);
                } else {
                    assert(archetype.members().contains(e));
                }
            }
            assert forall|c: nat, b: nat| #[trigger] self.component_archetypes@.dom().contains(c)
                && #[trigger] self.component_archetypes@[c]@.dom().contains(b) implies {
                &&& b < self.archetypes@.len()
                &&& self.archetypes@[b as int].table().dom().contains(c as DynamicId)
            } by {
                if b < n {
                    assert(self.archetypes@[b as int] == o.archetypes@[b as int]);
                }
            }
            assert forall|b: int, c: DynamicId| 0 <= b < self.archetypes@.len() && #[trigger] self.archetypes@[b].table().dom().contains(c)
                implies self.component_archetypes@.dom().contains(c as nat) && self.component_archetypes@[c as nat]@.dom().contains(b as nat) by {
                if b < n {
                    assert(self.archetypes@[b] == o.archetypes@[b]);
                } else {
                    assert(ids@.dom().contains(c as nat));
                    ids.lemma_view();
                    let j = choose|j: int| 0 <= j < ids.keys().len() && (#[trigger] ids.keys()[j]).index_key() == c as nat;
                    assert(keys@[j] == c);
                    assert(self.component_archetypes@.dom().contains(keys@[j] as nat));
                }
            }
        }
    }

    /// Finds the archetype whose component types are exactly the given ids.
    fn find_archetype(&self, component_ids: &Vec<DynamicId>) -> (r: Option<usize>)
        requires
            self.wf(),
            distinct_ids(component_ids@),
        ensures
            r matches Some(a) ==> a < self.spec_archetypes().len()
                && self.spec_archetypes()[a as int].table().dom() == component_ids@.to_set(),
            r matches Some(a) ==> forall|b: int| 0 <= b < a
                ==> (#[trigger] self.spec_archetypes()[b]).table().dom() != component_ids@.to_set(),
            r is None ==> forall|b: int| 0 <= b < self.spec_archetypes().len()
                ==> (#[trigger] self.spec_archetypes()[b]).table().dom() != component_ids@.to_set(),
    {
        let n = self.archetypes.len();
        let mut i: usize = 0;
        proof {
            assert(component_ids@.no_duplicates());
            component_ids@.unique_seq_to_set();
        }
        while i < n
            invariant
                self.wf(),
                n == self.archetypes@.len(),
                i <= n,
                distinct_ids(component_ids@),
                component_ids@.to_set().len() == component_ids@.len(),
                forall|b: int| 0 <= b < i
                    ==> (#[trigger] self.spec_archetypes()[b]).table().dom() != component_ids@.to_set(),
            decreases n - i,
        {
            if self.archetypes[i].exclusively_contains_components(component_ids.as_slice()) {
                proof {
                    let a = self.archetypes@[i as int];
                    a.lemma_table();
                    let ids = component_ids@;
                    assert(ids.no_duplicates());
                    ids.unique_seq_to_set();
                    assert(ids.to_set().subset_of(a.table().dom()));
                    vstd::set_lib::lemma_subset_equality(ids.to_set(), a.table().dom());
                }
                return Some(i);
            }
            proof {
                let a = self.archetypes@[i as int];
                a.lemma_table();
                let ids = component_ids@;
                if a.table().dom() == ids.to_set() {
                    assert forall|k: int| 0 <= k < ids.len() implies a.table().dom().contains(#[trigger] ids[k]) by {
                        assert(ids.to_set().contains(ids[k]));
                    }
                }
            }
            i = i + 1;
        }
        None
    }

    /// Puts an entity without components into the archetype of exactly the given component
    /// types, creating that archetype if there is none, and stores its components there.
    fn build_on_with_components(&mut self, entity: DynamicId, components: Vec<Data>, component_ids: Vec<DynamicId>)
        requires
            old(self).wf(),
            old(self).generations().dom().contains(entity as nat),
            !old(self).placement().dom().contains(entity as nat),
            components@.len() == component_ids@.len(),
            forall|i: int| 0 <= i < components@.len() ==> (#[trigger] components@[i]).type_id == component_ids@[i],
            distinct_ids(component_ids@),
            forall|i: int| 0 <= i < component_ids@.len() ==> (#[trigger] component_ids@[i] as nat) < usize::MAX,
            old(self).spec_archetypes().len() + 1 < usize::MAX,
        ensures
            final(self).wf(),
            final(self).placement().dom() == old(self).placement().dom().insert(entity as nat),
            final(self).components_of(entity as nat) == by_type(components@),
            forall|x: nat| x != entity && #[trigger] old(self).placement().dom().contains(x)
                ==> final(self).components_of(x) == old(self).components_of(x),
            final(self).living() == old(self).living(),
            final(self).generations() == old(self).generations(),
            final(self).spec_registry() == old(self).spec_registry(),
            final(self).spec_archetypes().len() <= old(self).spec_archetypes().len() + 1,
    {
        let ghost all = components@;
        proof {
            assert(distinct_types(all)) by {
                assert forall|i: int, j: int| 0 <= i < j < all.len() implies all[i].type_id != all[j].type_id by {
                    assert(component_ids@[i] != component_ids@[j]);
                }
            }
            lemma_by_type(all);
            assert(by_type(all).dom() =~= component_ids@.to_set()) by {
                assert forall|c: DynamicId| by_type(all).dom().contains(c) implies component_ids@.to_set().contains(c) by {
                    let j = choose|j: int| 0 <= j < all.len() && (#[trigger] all[j]).type_id == c;
                    assert(component_ids@[j] == c);
                }
                assert forall|c: DynamicId| component_ids@.to_set().contains(c) implies by_type(all).dom().contains(c) by {
                    let j = choose|j: int| 0 <= j < component_ids@.len() && component_ids@[j] == c;
                    assert(all[j].type_id == c);
                }
            }
        }
        let a = match self.find_archetype(&component_ids) {
            Some(a) => a,
            None => {
                let n = self.archetypes.len();
                let archetype = Archetype::with_component_ids(n, component_ids);
                self.push_archetype(archetype);
                n
            },
        };
        let ghost mid = *self;
        proof {
            let arch = self.archetypes@[a as int];
            assert(arch.wf() && arch.complete());
            if arch.members().contains(entity as nat) {
                assert(self.entity_archetypes@.dom().contains(entity as nat));
            }
        }
        self.archetypes[a].insert_components(entity, components);
        self.entity_archetypes.insert(entity, a);
        proof {
            let o = mid;
            let ai = a as int;
            assert forall|e: nat| #[trigger] self.living_entities@.dom().contains(e) implies {
                &&& self.entity_generations@.dom().contains(e)
                &&& self.living_entities@[e].spec_id() == e
                &&& self.living_entities@[e].spec_generation() == self.entity_generations@[e]
            } by {
                assert(o.living_entities@.dom().contains(e));
            }
            assert forall|e: nat| #[trigger] self.entity_generations@.dom().contains(e) implies 1 <= e < self.registry.next() by {
                assert(o.entity_generations@.dom().contains(e));
            }
            assert forall|b: int| 0 <= b < self.archetypes@.len() implies {
                &&& (#[trigger] self.archetypes@[b]).wf()
                &&& self.archetypes@[b].spec_id() == b
                &&& self.archetypes@[b].complete()
            } by {
                if b != ai {
                    assert(self.archetypes@[b] == o.archetypes@[b]);
                }
            }
            assert forall|e: nat| #[trigger] self.entity_archetypes@.dom().contains(e) implies {
                &&& self.entity_generations@.dom().contains(e)
                &&& self.entity_archetypes@[e] < self.archetypes@.len()
                &&& self.archetypes@[self.entity_archetypes@[e] as int].members().contains(e)
                    || self.archetypes@[self.entity_archetypes@[e] as int].table().dom().len() == 0
            } by {
                if e != entity as nat {
                    assert(o.entity_archetypes@.dom().contains(e));
                    let b = o.entity_archetypes@[e] as int;
                    if b != ai {
                        assert(self.archetypes@[b] == o.archetypes@[b]);
                    }
                } else {
                    if all.len() == 0 {
                        o.archetypes@[ai].lemma_table();
                        assert(by_type(all).dom() =~= Set::<DynamicId>::empty());
                        assert(self.archetypes@[ai].table().dom() =~= Set::<DynamicId>::empty());
                    }
                }
            }
            assert forall|b: int, e: nat| 0 <= b < self.archetypes@.len() && #[trigger] self.archetypes@[b].members().contains(e)
                implies self.entity_archetypes@.dom().contains(e) && self.entity_archetypes@[e] == b by {
                if b != ai {
                    assert(self.archetypes@[b] == o.archetypes@[b]);
                    assert(o.archetypes@[b].members().contains(e));
                    if e == entity as nat {
                        assert(o.entity_archetypes@.dom().contains(e));
                    }
                } else if e != entity as nat {
                    assert(o.archetypes@[b].members().contains(e));
                }
            }
            assert forall|c: nat, b: nat| #[trigger] self.component_archetypes@.dom().contains(c)
                && #[trigger] self.component_archetypes@[c]@.dom().contains(b) implies {
                &&& b < self.archetypes@.len()
                &&& self.archetypes@[b as int].table().dom().contains(c as DynamicId)
            } by {
                assert(o.archetypes@[b as int].table().dom().contains(c as DynamicId));
                if b != a {
                    assert(self.archetypes@[b as int] == o.archetypes@[b as int]);
                }
            }
            assert forall|b: int, c: DynamicId| 0 <= b < self.archetypes@.len() && #[trigger] self.archetypes@[b].table().dom().contains(c)
                implies self.component_archetypes@.dom().contains(c as nat) && self.component_archetypes@[c as nat]@.dom().contains(b as nat) by {
                if b != ai {
                    assert(self.archetypes@[b] == o.archetypes@[b]);
                }
                assert(o.archetypes@[b].table().dom().contains(c));
            }
            assert(self.components_of(entity as nat) =~= by_type(all));
            assert forall|x: nat| x != entity && #[trigger] old(self).placement().dom().contains(x)
                implies self.components_of(x) == old(self).components_of(x) by {
                let b = old(self).entity_archetypes@[x] as int;
                assert(o.entity_archetypes@[x] as int == b);
                assert(o.archetypes@[b] == old(self).archetypes@[b]);
                if b == ai {
                    assert(self.components_of(x) =~= old(self).components_of(x));
                } else {
                    assert(self.archetypes@[b] == o.archetypes@[b]);
                    assert(self.components_of(x) =~= old(self).components_of(x));
                }
            }
        }
    }

    /// A new entity holding the given components, one of each of the given types in that order.
    pub fn build_with_components(&mut self, components: Vec<Data>, component_ids: Vec<DynamicId>) -> (e: Entity)
        requires
            old(self).wf(),
            old(self).spec_registry().next() < u32::MAX,
            components@.len() == component_ids@.len(),
            forall|i: int| 0 <= i < components@.len() ==> (#[trigger] components@[i]).type_id == component_ids@[i],
            distinct_ids(component_ids@),
            forall|i: int| 0 <= i < component_ids@.len() ==> (#[trigger] component_ids@[i] as nat) < usize::MAX,
            old(self).spec_archetypes().len() + 1 < usize::MAX,
        ensures
            final(self).wf(),
            e.spec_id() == old(self).spec_registry().next(),
            e.spec_generation() == 0,
            !old(self).generations().dom().contains(e.spec_id() as nat),
            final(self).living() == old(self).living().insert(e.spec_id() as nat, e),
            final(self).generations() == old(self).generations().insert(e.spec_id() as nat, 0),
            final(self).placement().dom() == old(self).placement().dom().insert(e.spec_id() as nat),
            final(self).components_of(e.spec_id() as nat) == by_type(components@),
            forall|x: nat| #[trigger] old(self).placement().dom().contains(x)
                ==> final(self).components_of(x) == old(self).components_of(x),
            final(self).spec_registry().next() == old(self).spec_registry().next() + 1,
            final(self).spec_archetypes().len() <= old(self).spec_archetypes().len() + 1,
    {
        let entity = self.create_entity();
        proof {
            if self.placement().dom().contains(entity.spec_id() as nat) {
                assert(old(self).entity_archetypes@.dom().contains(entity.spec_id() as nat));
            }
        }
        self.build_on_with_components(entity.id(), components, component_ids);
        proof {
            assert forall|x: nat| #[trigger] old(self).placement().dom().contains(x)
                implies self.components_of(x) == old(self).components_of(x) by {
                assert(old(self).entity_generations@.dom().contains(x));
            }
        }
        entity
    }

    /// Gives an entity one more component; the entity moves to the archetype of its new set of
    /// component types.
    pub fn add_dynamic_component(&mut self, entity: &Entity, component: Data)
        requires
            old(self).wf(),
            old(self).generations().dom().contains(entity.spec_id() as nat),
            (component.type_id as nat) < usize::MAX,
            old(self).placement().dom().contains(entity.spec_id() as nat) ==> !old(self).components_of(
                entity.spec_id() as nat,
            ).dom().contains(component.type_id),
            old(self).spec_archetypes().len() + 1 < usize::MAX,
        ensures
            final(self).wf(),
            final(self).placement().dom() == old(self).placement().dom().insert(entity.spec_id() as nat),
            final(self).components_of(entity.spec_id() as nat) == (if old(self).placement().dom().contains(
                entity.spec_id() as nat,
            ) {
                old(self).components_of(entity.spec_id() as nat)
            } else {
                Map::empty()
            }).insert(component.type_id, component),
            forall|x: nat| x != entity.spec_id() && #[trigger] old(self).placement().dom().contains(x)
                ==> final(self).components_of(x) == old(self).components_of(x),
            final(self).living() == old(self).living(),
            final(self).generations() == old(self).generations(),
            final(self).spec_registry() == old(self).spec_registry(),
            final(self).spec_archetypes().len() <= old(self).spec_archetypes().len() + 1,
    {
        let id = entity.id();
        let ghost ev = id as nat;
        let ghost before: Map<DynamicId, Data> = if old(self).placement().dom().contains(ev) {
            old(self).components_of(ev)
        } else {
            Map::empty()
        };
        let mut components: Vec<Data> = match self.entity_archetypes.get(&id) {
            Some(index) => {
                let a = *index;
                let ghost arch = self.archetypes@[a as int];
                proof {
                    arch.lemma_drain_member(ev);
                }
                let taken = self.archetypes[a].component_drain(id);
                self.entity_archetypes.remove(&id);
                proof {
                    let o = old(self);
                    let ai = a as int;
                    assert(taken@ =~= drained(arch.column_ids(), arch.table(), ev));
                    assert forall|e: nat| #[trigger] self.entity_archetypes@.dom().contains(e) implies {
                        &&& self.entity_generations@.dom().contains(e)
                        &&& self.entity_archetypes@[e] < self.archetypes@.len()
                        &&& self.archetypes@[self.entity_archetypes@[e] as int].members().contains(e)
                            || self.archetypes@[self.entity_archetypes@[e] as int].table().dom().len() == 0
                    } by {
                        assert(o.entity_archetypes@.dom().contains(e));
                        let b = o.entity_archetypes@[e] as int;
                        if b != ai {
                            assert(self.archetypes@[b] == o.archetypes@[b]);
                        }
                    }
                    assert forall|b: int| 0 <= b < self.archetypes@.len() implies {
                        &&& (#[trigger] self.archetypes@[b]).wf()
                        &&& self.archetypes@[b].spec_id() == b
                        &&& self.archetypes@[b].complete()
                    } by {
                        if b != ai {
                            assert(self.archetypes@[b] == o.archetypes@[b]);
                        } else {
                            assert forall|c: DynamicId| #[trigger] self.archetypes@[b].table().dom().contains(c) implies self.archetypes@[b].table()[c].dom() == self.archetypes@[b].members() by {
                                assert(o.archetypes@[b].table().dom().contains(c));
                                assert(self.archetypes@[b].table()[c].dom() =~= self.archetypes@[b].members());
                            }
                        }
                    }
                    assert forall|b: int, e: nat| 0 <= b < self.archetypes@.len() && #[trigger] self.archetypes@[b].members().contains(e)
                        implies self.entity_archetypes@.dom().contains(e) && self.entity_archetypes@[e] == b by {
                        if b != ai {
                            assert(self.archetypes@[b] == o.archetypes@[b]);
                        }
                        assert(o.archetypes@[b].members().contains(e));
                    }
                    assert forall|c: nat, b: nat| #[trigger] self.component_archetypes@.dom().contains(c)
                        && #[trigger] self.component_archetypes@[c]@.dom().contains(b) implies {
                        &&& b < self.archetypes@.len()
                        &&& self.archetypes@[b as int].table().dom().contains(c as DynamicId)
                    } by {
                        if b != a {
                            assert(self.archetypes@[b as int] == o.archetypes@[b as int]);
                        }
                    }
                    assert forall|b: int, c: DynamicId| 0 <= b < self.archetypes@.len() && #[trigger] self.archetypes@[b].table().dom().contains(c)
                        implies self.component_archetypes@.dom().contains(c as nat) && self.component_archetypes@[c as nat]@.dom().contains(b as nat) by {
                        if b != ai {
                            assert(self.archetypes@[b] == o.archetypes@[b]);
                        }
                        assert(o.archetypes@[b].table().dom().contains(c));
                    }
                    assert(self.wf());
                    assert forall|x: nat| x != ev && #[trigger] old(self).placement().dom().contains(x)
                        implies self.placement().dom().contains(x) && self.components_of(x) == old(self).components_of(x) by {
                        let b = o.entity_archetypes@[x] as int;
                        if b == ai {
                            assert(self.components_of(x) =~= old(self).components_of(x));
                        } else {
                            assert(self.archetypes@[b] == o.archetypes@[b]);
                            assert(self.components_of(x) =~= old(self).components_of(x));
                        }
                    }
                }
                taken
            },
            None => Vec::new(),
        };
        let ghost mid = *self;
        let ghost prior = components@;
        proof {
            assert(by_type(prior) == before);
            assert(distinct_types(prior));
        }
        components.push(component);
        let mut component_ids: Vec<DynamicId> = Vec::new();
        let n = components.len();
        let mut i: usize = 0;
        while i < n
            invariant
                n == components@.len(),
                i <= n,
                component_ids@.len() == i,
                forall|j: int| 0 <= j < i ==> component_ids@[j] == (#[trigger] components@[j]).type_id,
            decreases n - i,
        {
            component_ids.push(components[i].type_id);
            i = i + 1;
        }
        let ghost all = components@;
        proof {
            lemma_by_type(prior);
            assert(all == prior.push(component));
            assert(distinct_types(all)) by {
                assert forall|x: int, y: int| 0 <= x < y < all.len() implies all[x].type_id != all[y].type_id by {
                    if y == all.len() - 1 {
                        assert(all[x] == prior[x]);
                        assert(before.dom().contains(prior[x].type_id));
                    } else {
                        assert(all[x] == prior[x] && all[y] == prior[y]);
                    }
                }
            }
            assert(distinct_ids(component_ids@)) by {
                assert forall|x: int, y: int| 0 <= x < y < component_ids@.len() implies component_ids@[x] != component_ids@[y] by {
                    assert(component_ids@[x] == all[x].type_id);
                    assert(component_ids@[y] == all[y].type_id);
                }
            }
            assert forall|j: int| 0 <= j < component_ids@.len() implies (#[trigger] component_ids@[j] as nat) < usize::MAX by {
                assert(component_ids@[j] == all[j].type_id);
                if j < prior.len() {
                    assert(all[j] == prior[j]);
                    let c = prior[j].type_id;
                    assert(before.dom().contains(c));
                    let b = old(self).entity_archetypes@[ev] as int;
                    let arch = old(self).archetypes@[b];
                    arch.lemma_table();
                    let k = choose|k: int| 0 <= k < arch.column_ids().len() && arch.column_ids()[k] == c;
                    assert(arch.columns.ids()[k] == c);
                }
            }
            lemma_by_type(all);
            assert(by_type(all) =~= before.insert(component.type_id, component)) by {
                assert forall|c: DynamicId| by_type(all).dom().contains(c) <==> before.insert(component.type_id, component).dom().contains(c) by {
                    if by_type(all).dom().contains(c) {
                        let j = choose|j: int| 0 <= j < all.len() && (#[trigger] all[j]).type_id == c;
                        if j < prior.len() {
                            assert(all[j] == prior[j]);
                        }
                    }
                    if before.dom().contains(c) {
                        let j = choose|j: int| 0 <= j < prior.len() && (#[trigger] prior[j]).type_id == c;
                        assert(all[j] == prior[j]);
                    }
                    if c == component.type_id {
                        assert(all[all.len() - 1].type_id == c);
                    }
                }
                assert forall|c: DynamicId| by_type(all).dom().contains(c) implies by_type(all)[c] == before.insert(component.type_id, component)[c] by {
                    let j = choose|j: int| 0 <= j < all.len() && (#[trigger] all[j]).type_id == c;
                    assert(by_type(all)[all[j].type_id] == all[j]);
                    if j < prior.len() {
                        assert(all[j] == prior[j]);
                        assert(by_type(prior)[prior[j].type_id] == prior[j]);
                    }
                }
            }
        }
        self.build_on_with_components(id, components, component_ids);
    }

    /// Takes a placed entity's components out of its archetype and unplaces it. Returns the
    /// components, one per type in ascending order of type id, and those type ids.
    fn take_components(&mut self, id: DynamicId) -> (r: (Vec<Data>, Vec<DynamicId>))
        requires
            old(self).wf(),
            old(self).placement().dom().contains(id as nat),
        ensures
            final(self).wf(),
            final(self).placement() == old(self).placement().remove(id as nat),
            forall|x: nat| x != id && #[trigger] old(self).placement().dom().contains(x)
                ==> final(self).components_of(x) == old(self).components_of(x),
            final(self).living() == old(self).living(),
            final(self).generations() == old(self).generations(),
            final(self).spec_registry() == old(self).spec_registry(),
            final(self).spec_archetypes().len() == old(self).spec_archetypes().len(),
            r.0@.len() == r.1@.len(),
            forall|i: int| 0 <= i < r.0@.len() ==> (#[trigger] r.0@[i]).type_id == r.1@[i],
            distinct_ids(r.1@),
            forall|i: int| 0 <= i < r.1@.len() ==> (#[trigger] r.1@[i] as nat) < usize::MAX,
            by_type(r.0@) == old(self).components_of(id as nat),
    {
        let ghost ev = id as nat;
        let a = *self.entity_archetypes.get(&id).unwrap();
        let ghost arch = self.archetypes@[a as int];
        proof {
            arch.lemma_drain_member(ev);
            arch.lemma_table();
        }
        let taken = self.archetypes[a].component_drain(id);
        self.entity_archetypes.remove(&id);
        proof {
            let o = old(self);
            let ai = a as int;
            assert(taken@ =~= drained(arch.column_ids(), arch.table(), ev));
            assert forall|e: nat| #[trigger] self.entity_archetypes@.dom().contains(e) implies {
                &&& self.entity_generations@.dom().contains(e)
                &&& self.entity_archetypes@[e] < self.archetypes@.len()
                &&& self.archetypes@[self.entity_archetypes@[e] as int].members().contains(e)
                    || self.archetypes@[self.entity_archetypes@[e] as int].table().dom().len() == 0
            } by {
                assert(o.entity_archetypes@.dom().contains(e));
                let b = o.entity_archetypes@[e] as int;
                if b != ai {
                    assert(self.archetypes@[b] == o.archetypes@[b]);
                }
            }
            assert forall|b: int| 0 <= b < self.archetypes@.len() implies {
                &&& (#[trigger] self.archetypes@[b]).wf()
                &&& self.archetypes@[b].spec_id() == b
                &&& self.archetypes@[b].complete()
            } by {
                if b != ai {
                    assert(self.archetypes@[b] == o.archetypes@[b]);
                } else {
                    assert forall|c: DynamicId| #[trigger] self.archetypes@[b].table().dom().contains(c) implies self.archetypes@[b].table()[c].dom() == self.archetypes@[b].members() by {
                        assert(o.archetypes@[b].table().dom().contains(c));
                        assert(self.archetypes@[b].table()[c].dom() =~= self.archetypes@[b].members());
                    }
                }
            }
            assert forall|b: int, e: nat| 0 <= b < self.archetypes@.len() && #[trigger] self.archetypes@[b].members().contains(e)
                implies self.entity_archetypes@.dom().contains(e) && self.entity_archetypes@[e] == b by {
                if b != ai {
                    assert(self.archetypes@[b] == o.archetypes@[b]);
                }
                assert(o.archetypes@[b].members().contains(e));
            }
            assert forall|c: nat, b: nat| #[trigger] self.component_archetypes@.dom().contains(c)
                && #[trigger] self.component_archetypes@[c]@.dom().contains(b) implies {
                &&& b < self.archetypes@.len()
                &&& self.archetypes@[b as int].table().dom().contains(c as DynamicId)
            } by {
                if b != a {
                    assert(self.archetypes@[b as int] == o.archetypes@[b as int]);
                }
            }
            assert forall|b: int, c: DynamicId| 0 <= b < self.archetypes@.len() && #[trigger] self.archetypes@[b].table().dom().contains(c)
                implies self.component_archetypes@.dom().contains(c as nat) && self.component_archetypes@[c as nat]@.dom().contains(b as nat) by {
                if b != ai {
                    assert(self.archetypes@[b] == o.archetypes@[b]);
                }
                assert(o.archetypes@[b].table().dom().contains(c));
            }
            assert(self.wf());
            assert(self.placement() =~= old(self).placement().remove(ev));
            assert forall|x: nat| x != ev && #[trigger] old(self).placement().dom().contains(x)
                implies self.components_of(x) == old(self).components_of(x) by {
                let b = o.entity_archetypes@[x] as int;
                if b == ai {
                    assert(self.components_of(x) =~= old(self).components_of(x));
                } else {
                    assert(self.archetypes@[b] == o.archetypes@[b]);
                    assert(self.components_of(x) =~= old(self).components_of(x));
                }
            }
            assert(by_type(taken@) =~= old(self).components_of(ev));
        }
        let mut component_ids: Vec<DynamicId> = Vec::new();
        let n = taken.len();
        let mut i: usize = 0;
        while i < n
            invariant
                n == taken@.len(),
                i <= n,
                component_ids@.len() == i,
                forall|j: int| 0 <= j < i ==> component_ids@[j] == (#[trigger] taken@[j]).type_id,
            decreases n - i,
        {
            component_ids.push(taken[i].type_id);
            i = i + 1;
        }
        proof {
            let d = drained(arch.column_ids(), arch.table(), ev);
            assert(taken@ == d);
            assert forall|j: int| 0 <= j < component_ids@.len() implies component_ids@[j] == arch.column_ids()[j] by {
                assert(d[j].type_id == arch.column_ids()[j]);
            }
            assert(distinct_ids(component_ids@)) by {
                assert forall|x: int, y: int| 0 <= x < y < component_ids@.len() implies component_ids@[x] != component_ids@[y] by {
                    assert(arch.columns.ids()[x] != arch.columns.ids()[y]);
                }
            }
            assert forall|j: int| 0 <= j < component_ids@.len() implies (#[trigger] component_ids@[j] as nat) < usize::MAX by {
                assert(component_ids@[j] == arch.columns.ids()[j]);
            }
        }
        (taken, component_ids)
    }

    /// A store without entities or archetypes, with a copy of this one's registry: it hands
    /// out the ids this one would hand out next.
    pub fn split(&self) -> (r: Self)
        requires
            self.wf(),
        ensures
            r.wf(),
            r.living() == Map::<nat, Entity>::empty(),
            r.generations() == Map::<nat, u32>::empty(),
            r.placement() == Map::<nat, usize>::empty(),
            r.spec_archetypes() == Seq::<Archetype>::empty(),
            r.spec_registry().next() == self.spec_registry().next(),
            r.spec_registry().named() == self.spec_registry().named(),
    {
        let mut components = Components::new();
        components.registry = self.registry.split();
        components
    }

    /// Takes over the living entities of `other` that are not living here, with their
    /// generations and components, and `other`'s registry. An entity living here keeps what
    /// it has here.
    pub fn merge(&mut self, other: Components)
        requires
            old(self).wf(),
            other.wf(),
            old(self).spec_registry().named().is_prefix_of(other.spec_registry().named()),
            old(self).spec_registry().next() <= other.spec_registry().next(),
            forall|e: nat| #[trigger] other.living().dom().contains(e) && !old(self).living().dom().contains(e)
                ==> other.placement().dom().contains(e) && !old(self).placement().dom().contains(e),
            old(self).spec_archetypes().len() + other.living().dom().len() + 1 < usize::MAX,
        ensures
            final(self).wf(),
            final(self).spec_registry().next() == other.spec_registry().next(),
            final(self).spec_registry().name_map() == other.spec_registry().name_map(),
            final(self).living() == other.living().union_prefer_right(old(self).living()),
            final(self).generations() == old(self).generations().union_prefer_right(
                other.generations().restrict(other.living().dom().difference(old(self).living().dom())),
            ),
            final(self).placement().dom() == old(self).placement().dom().union(
                other.living().dom().difference(old(self).living().dom()),
            ),
            forall|e: nat| #[trigger] other.living().dom().contains(e) && !old(self).living().dom().contains(e)
                ==> final(self).components_of(e) == other.components_of(e),
            forall|x: nat| #[trigger] old(self).placement().dom().contains(x)
                ==> final(self).components_of(x) == old(self).components_of(x),
    {
        let mut other = other;
        let ghost o = other;
        self.registry.merge(&other.registry);
        proof {
            Registry::lemma_prefix_union(old(self).registry, other.registry);
            Registry::lemma_fresh_from_map(self.registry, other.registry);
            assert forall|e: nat| #[trigger] self.entity_generations@.dom().contains(e) implies 1 <= e < self.registry.next() by {
                assert(old(self).entity_generations@.dom().contains(e));
            }
            assert(self.wf());
        }
        let ghost s1 = *self;
        let slice = other.living_entities();
        let mut list: Vec<Entity> = Vec::new();
        let mut i: usize = 0;
        while i < slice.len()
            invariant
                0 <= i <= slice@.len(),
                list@ == slice@.subrange(0, i as int),
            decreases slice@.len() - i,
        {
            list.push(slice[i]);
            i = i + 1;
        }
        proof {
            assert(list@ == slice@);
        }
        let ghost newbies = o.living().dom().difference(s1.living().dom());
        let mut k: usize = 0;
        while k < list.len()
            invariant
                self.wf(),
                other.wf(),
                newbies == o.living().dom().difference(s1.living().dom()),
                s1.spec_registry().next() == o.spec_registry().next(),
                self.spec_registry() == s1.spec_registry(),
                other.spec_registry() == o.spec_registry(),
                other.living() == o.living(),
                other.generations() == o.generations(),
                list@.len() == o.living().dom().len(),
                forall|j: int| 0 <= j < list@.len() ==> o.living().dom().contains((#[trigger] list@[j]).spec_id() as nat)
                    && list@[j] == o.living()[list@[j].spec_id() as nat],
                forall|e: nat| #[trigger] o.living().dom().contains(e) ==> exists|j: int| 0 <= j < list@.len() && list@[j] == o.living()[e],
                0 <= k <= list@.len(),
                forall|e: nat| #[trigger] other.placement().dom().contains(e) ==> o.placement().dom().contains(e)
                    && other.components_of(e) == o.components_of(e),
                forall|e: nat| #[trigger] newbies.contains(e) && !done_ids(list@, k as int).contains(e)
                    ==> other.placement().dom().contains(e),
                self.living() == o.living().restrict(done_ids(list@, k as int)).union_prefer_right(s1.living()),
                self.generations() == s1.generations().union_prefer_right(
                    o.generations().restrict(done_ids(list@, k as int).intersect(newbies)),
                ),
                self.placement().dom() == s1.placement().dom().union(done_ids(list@, k as int).intersect(newbies)),
                forall|e: nat| #[trigger] done_ids(list@, k as int).contains(e) && newbies.contains(e)
                    ==> self.components_of(e) == o.components_of(e),
                forall|x: nat| #[trigger] s1.placement().dom().contains(x)
                    ==> self.components_of(x) == s1.components_of(x),
                self.spec_archetypes().len() <= s1.spec_archetypes().len() + k,
                s1.spec_archetypes().len() + list@.len() + 1 < usize::MAX,
                forall|e: nat| #[trigger] newbies.contains(e) ==> !s1.placement().dom().contains(e) && o.placement().dom().contains(e),
            decreases list@.len() - k,
        {
            let entity = list[k];
            let id = entity.id();
            let ghost ev = id as nat;
            let ghost done0 = done_ids(list@, k as int);
            let ghost done1 = done_ids(list@, k + 1);
            let ghost before = *self;
            proof {
                assert(o.living().dom().contains((list@[k as int]).spec_id() as nat));
                assert(list@[k as int] == entity);
                assert(o.living().dom().contains(ev));
                assert(done1 =~= done0.insert(ev)) by {
                    assert(list@[k as int].spec_id() as nat == ev);
                }
            }
            if !self.living_entities.contains(&id) {
                proof {
                    assert(!self.living().dom().contains(ev));
                    assert(!s1.living().dom().contains(ev));
                    assert(newbies.contains(ev));
                    assert(!done0.contains(ev));
                    assert(o.generations().dom().contains(ev));
                    assert(o.spec_registry().next() == self.spec_registry().next());
                }
                self.living_entities.insert(id, entity);
                self.entity_generations.insert(id, entity.generation());
                proof {
                    let g = o.generations()[ev];
                    assert(entity.spec_generation() == g);
                    assert forall|e: nat| #[trigger] self.living_entities@.dom().contains(e) implies {
                        &&& self.entity_generations@.dom().contains(e)
                        &&& self.living_entities@[e].spec_id() == e
                        &&& self.living_entities@[e].spec_generation() == self.entity_generations@[e]
                    } by {
                        if e != ev {
                            assert(before.living_entities@.dom().contains(e));
                        }
                    }
                    assert forall|e: nat| #[trigger] self.entity_generations@.dom().contains(e) implies 1 <= e < self.registry.next() by {
                        if e != ev {
                            assert(before.entity_generations@.dom().contains(e));
                        }
                    }
                    assert(self.wf());
                    assert(!self.placement().dom().contains(ev));
                }
                let ghost mid = *self;
                let (components, component_types) = other.take_components(id);
                self.build_on_with_components(id, components, component_types);
                proof {
                    assert(self.living() =~= o.living().restrict(done1).union_prefer_right(s1.living()));
                    assert(self.generations() =~= s1.generations().union_prefer_right(
                        o.generations().restrict(done1.intersect(newbies)),
                    ));
                    assert(self.placement().dom() =~= s1.placement().dom().union(done1.intersect(newbies)));
                    assert forall|e: nat| #[trigger] done1.contains(e) && newbies.contains(e)
                        implies self.components_of(e) == o.components_of(e) by {
                        if e != ev {
                            assert(done0.contains(e));
                            assert(before.components_of(e) == o.components_of(e));
                            assert(mid.placement().dom().contains(e));
                        }
                    }
                    assert forall|x: nat| #[trigger] s1.placement().dom().contains(x)
                        implies self.components_of(x) == s1.components_of(x) by {
                        assert(x != ev);
                        assert(mid.placement().dom().contains(x));
                    }
                    assert forall|e: nat| #[trigger] newbies.contains(e) && !done1.contains(e)
                        implies other.placement().dom().contains(e) by {
                        assert(!done0.contains(e));
                    }
                }
            } else {
                proof {
                    assert(self.living().dom().contains(ev));
                    if newbies.contains(ev) {
                        assert(done0.contains(ev));
                    }
                    assert(o.living().restrict(done1).union_prefer_right(s1.living()) =~= self.living()) by {
                        if !s1.living().dom().contains(ev) {
                            assert(done0.contains(ev));
                        }
                    }
                    assert(done1.intersect(newbies) =~= done0.intersect(newbies));
                    assert forall|e: nat| #[trigger] done1.contains(e) && newbies.contains(e)
                        implies self.components_of(e) == o.components_of(e) by {
                        assert(done0.contains(e));
                    }
                    assert forall|e: nat| #[trigger] newbies.contains(e) && !done1.contains(e)
                        implies other.placement().dom().contains(e) by {
                        assert(!done0.contains(e));
                    }
                }
            }
            k = k + 1;
        }
        proof {
            let done = done_ids(list@, list@.len() as int);
            assert(o.living().dom().subset_of(done)) by {
                assert forall|e: nat| #[trigger] o.living().dom().contains(e) implies done.contains(e) by {
                    let j = choose|j: int| 0 <= j < list@.len() && list@[j] == o.living()[e];
                    assert(list@[j].spec_id() as nat == e);
                }
            }
            assert(o.living().restrict(done) =~= o.living());
            assert(done.intersect(newbies) =~= newbies);
            assert(o.generations().restrict(newbies) =~= o.generations().restrict(o.living().dom().difference(old(self).living().dom())));
        }
    }

    /// The id of the name in the registry: the one it has, or a fresh one it keeps from now on.
    pub(crate) fn get_named(&mut self, name: &str) -> (r: DynamicId)
        requires
            old(self).wf(),
            !old(self).spec_registry().has_name(name@) ==> old(self).spec_registry().next() < u32::MAX,
        ensures
            final(self).wf(),
            final(self).spec_registry().has_name(name@),
            final(self).spec_registry().id_of(name@) == r,
            old(self).spec_registry().has_name(name@) ==> r == old(self).spec_registry().id_of(name@),
            final(self).living() == old(self).living(),
            final(self).generations() == old(self).generations(),
            final(self).placement() == old(self).placement(),
            final(self).spec_archetypes() == old(self).spec_archetypes(),
    {
        let r = self.registry.get_named(name);
        proof {
            assert forall|e: nat| #[trigger] self.entity_generations@.dom().contains(e) implies 1 <= e < self.registry.next() by {
                assert(old(self).entity_generations@.dom().contains(e));
            }
        }
        r
    }

    /// The id of the type named `name` in the registry (see `Registry::get_static`).
    pub(crate) fn get_static(&mut self, name: &str) -> (r: DynamicId)
        requires
            old(self).wf(),
            !(old(self).spec_registry().statics().contains(name@) && old(self).spec_registry().has_name(name@))
                ==> old(self).spec_registry().next() < u32::MAX,
        ensures
            final(self).wf(),
            final(self).spec_registry().has_name(name@),
            final(self).spec_registry().id_of(name@) == r,
            old(self).spec_registry().statics().contains(name@) && old(self).spec_registry().has_name(name@)
                ==> r == old(self).spec_registry().id_of(name@) && final(self).spec_registry() == old(self).spec_registry(),
            !(old(self).spec_registry().statics().contains(name@) && old(self).spec_registry().has_name(name@)) ==> {
                &&& r == old(self).spec_registry().next()
                &&& final(self).spec_registry().next() == old(self).spec_registry().next() + 1
                &&& final(self).spec_registry().name_map() == old(self).spec_registry().name_map().insert(name@, r)
                &&& final(self).spec_registry().statics() == old(self).spec_registry().statics().insert(name@)
            },
            final(self).living() == old(self).living(),
            final(self).generations() == old(self).generations(),
            final(self).placement() == old(self).placement(),
            final(self).spec_archetypes() == old(self).spec_archetypes(),
    {
        let r = self.registry.get_static(name);
        proof {
            assert forall|e: nat| #[trigger] self.entity_generations@.dom().contains(e) implies 1 <= e < self.registry.next() by {
                assert(old(self).entity_generations@.dom().contains(e));
            }
        }
        r
    }

    /// Finitely many entities are placed.
    pub proof fn lemma_placement_finite(&self)
        requires
            self.wf(),
        ensures
            self.placement().dom().finite(),
    {
        self.entity_archetypes.lemma_view();
    }

    /// A placed entity has a generation and an archetype that exists.
    pub proof fn lemma_placed(&self, e: nat)
        requires
            self.wf(),
            self.placement().dom().contains(e),
        ensures
            self.generations().dom().contains(e),
            (self.placement()[e] as int) < self.spec_archetypes().len(),
    {
    }

    /// Whether the entity id is a living member of an archetype that the access matches.
    pub open spec fn matched(&self, access: &QueryAccess, id: nat) -> bool {
        &&& self.living().dom().contains(id)
        &&& self.placement().dom().contains(id)
        &&& self.spec_archetypes()[self.placement()[id] as int].members().contains(id)
        &&& matches_spec(access, self.spec_archetypes()[self.placement()[id] as int].table().dom())
    }

    /// The living entities in the archetypes that the access matches, each once.
    pub fn entities_matching_access(&self, access: &QueryAccess) -> (r: Vec<Entity>)
        requires
            self.wf(),
            access.wf(),
        ensures
            r@.no_duplicates(),
            forall|x: Entity| r@.contains(x) <==> exists|id: nat| #[trigger] self.matched(access, id) && x == self.living()[id],
    {
        let mut r: Vec<Entity> = Vec::new();
        let n = self.archetypes.len();
        let mut a: usize = 0;
        while a < n
            invariant
                self.wf(),
                access.wf(),
                n == self.archetypes@.len(),
                a <= n,
                r@.no_duplicates(),
                forall|x: Entity| r@.contains(x) <==> exists|id: nat| #[trigger] self.matched(access, id)
                    && self.placement()[id] < a && x == self.living()[id],
            decreases n - a,
        {
            let ghost arch = self.archetypes@[a as int];
            if access.matches_archetype(&self.archetypes[a]) {
                let keys = self.archetypes[a].entities.sparse_iter();
                proof {
                    arch.entities.lemma_view();
                }
                let m = keys.len();
                let mut k: usize = 0;
                while k < m
                    invariant
                        self.wf(),
                        access.wf(),
                        n == self.archetypes@.len(),
                        a < n,
                        arch == self.archetypes@[a as int],
                        matches_spec(access, arch.table().dom()),
                        keys@ == arch.entities.keys(),
                        arch.entities.wf(),
                        m == keys@.len(),
                        k <= m,
                        r@.no_duplicates(),
                        forall|x: Entity| r@.contains(x) <==> exists|id: nat| #[trigger] self.matched(access, id)
                            && (self.placement()[id] < a || (self.placement()[id] == a && seen(keys@, k as int, id)))
                            && x == self.living()[id],
                    decreases m - k,
                {
                    let id = keys[k];
                    proof {
                        arch.entities.lemma_view();
                        assert(arch.entities@.dom().contains(keys@[k as int].index_key()));
                        assert(arch.members().contains(id as nat));
                        assert(self.entity_archetypes@.dom().contains(id as nat) && self.entity_archetypes@[id as nat] == a);
                    }
                    match self.entity(id) {
                        Some(e) => {
                            proof {
                                assert(self.matched(access, id as nat));
                                if r@.contains(e) {
                                    let id2 = choose|id2: nat| #[trigger] self.matched(access, id2)
                                        && (self.placement()[id2] < a || (self.placement()[id2] == a && seen(keys@, k as int, id2)))
                                        && e == self.living()[id2];
                                    assert(self.living()[id2].spec_id() == id2);
                                    assert(id2 == id as nat);
                                    let q = choose|q: int| 0 <= q < k && #[trigger] keys@[q] as nat == id2;
                                    assert(keys@[q] == arch.entities.keys()[q]);
                                    assert(keys@[k as int] == arch.entities.keys()[k as int]);
                                }
                            }
                            let ghost r_old = r@;
                            r.push(e);
                            proof {
                                assert(r@.drop_last() =~= r_old);
                                assert forall|x: Entity| r@.contains(x) <==> exists|id3: nat| #[trigger] self.matched(access, id3)
                                    && (self.placement()[id3] < a || (self.placement()[id3] == a && seen(keys@, k + 1, id3)))
                                    && x == self.living()[id3] by {
                                    if r@.contains(x) {
                                        if x == e {
                                            assert(keys@[k as int] as nat == id as nat);
                                        } else {
                                            assert(r@.drop_last().contains(x)) by {
                                                let w = choose|w: int| 0 <= w < r@.len() && r@[w] == x;
                                                assert(r@.drop_last()[w] == x);
                                            }
                                            let id3 = choose|id3: nat| #[trigger] self.matched(access, id3)
                                                && (self.placement()[id3] < a || (self.placement()[id3] == a && seen(keys@, k as int, id3)))
                                                && x == self.living()[id3];
                                            if self.placement()[id3] == a {
                                                let q = choose|q: int| 0 <= q < k && #[trigger] keys@[q] as nat == id3;
                                                assert(0 <= q < k + 1 && keys@[q] as nat == id3);
                                            }
                                        }
                                    }
                                    if exists|id3: nat| #[trigger] self.matched(access, id3)
                                        && (self.placement()[id3] < a || (self.placement()[id3] == a && seen(keys@, k + 1, id3)))
                                        && x == self.living()[id3] {
                                        let id3 = choose|id3: nat| #[trigger] self.matched(access, id3)
                                            && (self.placement()[id3] < a || (self.placement()[id3] == a && seen(keys@, k + 1, id3)))
                                            && x == self.living()[id3];
                                        if self.placement()[id3] == a {
                                            let q = choose|q: int| 0 <= q < k + 1 && #[trigger] keys@[q] as nat == id3;
                                            if q == k {
                                                assert(id3 == id as nat);
                                                assert(x == e);
                                                assert(r@[r@.len() - 1] == e);
                                            } else {
                                                assert(r@.drop_last().contains(x));
                                                let w = choose|w: int| 0 <= w < r@.drop_last().len() && r@.drop_last()[w] == x;
                                                assert(r@[w] == x);
                                            }
                                        } else {
                                            assert(r@.drop_last().contains(x));
                                            let w = choose|w: int| 0 <= w < r@.drop_last().len() && r@.drop_last()[w] == x;
                                            assert(r@[w] == x);
                                        }
                                    }
                                }
                            }
                        },
                        None => {
                            proof {
                                assert forall|x: Entity| r@.contains(x) <==> exists|id3: nat| #[trigger] self.matched(access, id3)
                                    && (self.placement()[id3] < a || (self.placement()[id3] == a && seen(keys@, k + 1, id3)))
                                    && x == self.living()[id3] by {
                                    if exists|id3: nat| #[trigger] self.matched(access, id3)
                                        && (self.placement()[id3] < a || (self.placement()[id3] == a && seen(keys@, k + 1, id3)))
                                        && x == self.living()[id3] {
                                        let id3 = choose|id3: nat| #[trigger] self.matched(access, id3)
                                            && (self.placement()[id3] < a || (self.placement()[id3] == a && seen(keys@, k + 1, id3)))
                                            && x == self.living()[id3];
                                        if self.placement()[id3] == a {
                                            let q = choose|q: int| 0 <= q < k + 1 && #[trigger] keys@[q] as nat == id3;
                                            if q == k {
                                                assert(!self.living().dom().contains(id as nat));
                                            }
                                        }
                                    }
                                }
                            }
                        },
                    }
                    k = k + 1;
                }
                proof {
                    assert forall|x: Entity| r@.contains(x) <==> exists|id: nat| #[trigger] self.matched(access, id)
                        && self.placement()[id] < a + 1 && x == self.living()[id] by {
                        if exists|id: nat| #[trigger] self.matched(access, id) && self.placement()[id] < a + 1 && x == self.living()[id] {
                            let id = choose|id: nat| #[trigger] self.matched(access, id) && self.placement()[id] < a + 1 && x == self.living()[id];
                            if self.placement()[id] == a {
                                assert(arch.members().contains(id));
                                arch.entities.lemma_view();
                                let q = choose|q: int| 0 <= q < arch.entities.keys().len() && (#[trigger] arch.entities.keys()[q]).index_key() == id;
                                assert(keys@[q] as nat == id);
                                assert(seen(keys@, m as int, id));
                            }
                        }
                    }
                }
            } else {
                proof {
                    assert forall|x: Entity| r@.contains(x) <==> exists|id: nat| #[trigger] self.matched(access, id)
                        && self.placement()[id] < a + 1 && x == self.living()[id] by {
                        if exists|id: nat| #[trigger] self.matched(access, id) && self.placement()[id] < a + 1 && x == self.living()[id] {
                            let id = choose|id: nat| #[trigger] self.matched(access, id) && self.placement()[id] < a + 1 && x == self.living()[id];
                            assert(self.placement()[id] != a);
                        }
                    }
                }
            }
            a = a + 1;
        }
        proof {
            assert forall|x: Entity| r@.contains(x) <==> exists|id: nat| #[trigger] self.matched(access, id) && x == self.living()[id] by {
                if exists|id: nat| #[trigger] self.matched(access, id) && x == self.living()[id] {
                    let id = choose|id: nat| #[trigger] self.matched(access, id) && x == self.living()[id];
                    assert(self.placement()[id] < n);
                }
            }
        }
        r
    }

    /// The components of an entity held in an archetype, in ascending order of type id.
    pub fn entity_components(&self, entity: DynamicId) -> (r: Option<Vec<&Data>>)
        requires
            self.wf(),
        ensures
            r is Some <==> self.placement().dom().contains(entity as nat),
            r matches Some(v) ==> {
                let a = self.spec_archetypes()[self.placement()[entity as nat] as int];
                &&& v@.len() == a.column_ids().len()
                &&& forall|i: int| 0 <= i < v@.len() ==> *(#[trigger] v@[i]) == a.table()[a.column_ids()[i]][entity as nat]
                &&& forall|i: int| 0 <= i < v@.len() ==> (#[trigger] v@[i]).type_id == a.column_ids()[i]
            },
    {
        let a = match self.entity_archetypes.get(&entity) {
            Some(i) => *i,
            None => return None,
        };
        let arch = &self.archetypes[a];
        proof {
            arch.lemma_table();
            arch.lemma_drain_member(entity as nat);
        }
        let cols = arch.columns.iter();
        let mut out: Vec<&Data> = Vec::new();
        let n = cols.len();
        let mut i: usize = 0;
        while i < n
            invariant
                arch.wf(),
                arch.complete(),
                arch.members().contains(entity as nat) || arch.table().dom().len() == 0,
                n == cols@.len(),
                n == arch.column_ids().len(),
                n == arch.columns.entries().len(),
                arch.table().dom().len() == n,
                forall|j: int| 0 <= j < n ==> (#[trigger] cols@[j]).0 == arch.columns.entries()[j].0 && *cols@[j].1 == arch.columns.entries()[j].1,
                forall|j: int| 0 <= j < n ==> arch.columns.entries()[j].0 == #[trigger] arch.column_ids()[j],
                forall|j: int| #![trigger arch.columns.entries()[j]] 0 <= j < n ==> arch.table().dom().contains(arch.columns.entries()[j].0)
                    && arch.table()[arch.columns.entries()[j].0] == arch.columns.entries()[j].1.cells(),
                forall|j: int| 0 <= j < n ==> (#[trigger] drained(arch.column_ids(), arch.table(), entity as nat)[j]).type_id == arch.column_ids()[j],
                i <= n,
                out@.len() == i,
                forall|j: int| 0 <= j < i ==> *(#[trigger] out@[j]) == arch.table()[arch.column_ids()[j]][entity as nat],
            decreases n - i,
        {
            let col: &Column = cols[i].1;
            proof {
                assert(arch.columns.entries()[i as int].1 == *col);
                arch.lemma_entries_wf(i as int);
                let c = arch.column_ids()[i as int];
                assert(arch.table().dom().contains(c));
                if !arch.members().contains(entity as nat) {
                    assert(arch.table().dom().len() > 0);
                }
                assert(arch.table()[c].dom() == arch.members());
            }
            match col.get(&entity) {
                Some(d) => {
                    out.push(d);
                },
                None => {},
            }
            i = i + 1;
        }
        proof {
            assert forall|j: int| 0 <= j < out@.len() implies (#[trigger] out@[j]).type_id == arch.column_ids()[j] by {
                assert(drained(arch.column_ids(), arch.table(), entity as nat)[j] == arch.table()[arch.column_ids()[j]][entity as nat]);
            }
        }
        Some(out)
    }

    /// A copy of the components of an entity, keyed by type.
    fn component_map(&self, entity: DynamicId) -> (m: SparseSet<DynamicId, Data>)
        requires
            self.wf(),
            self.placement().dom().contains(entity as nat),
        ensures
            m.wf(),
            forall|c: DynamicId| m@.dom().contains(c as nat) <==> self.components_of(entity as nat).dom().contains(c),
            forall|k: nat| m@.dom().contains(k) ==> k <= u32::MAX,
            forall|c: DynamicId| #[trigger] m@.dom().contains(c as nat) ==> m@[c as nat].model() == self.components_of(entity as nat)[c].model(),
    {
        let ghost a = self.spec_archetypes()[self.placement()[entity as nat] as int];
        let comps = match self.entity_components(entity) {
            Some(v) => v,
            None => Vec::new(),
        };
        proof {
            a.lemma_table();
        }
        let mut m: SparseSet<DynamicId, Data> = SparseSet::new();
        let n = comps.len();
        let mut j: usize = 0;
        while j < n
            invariant
                a.wf(),
                n == comps@.len(),
                n == a.column_ids().len(),
                forall|q: int| 0 <= q < n ==> *(#[trigger] comps@[q]) == a.table()[a.column_ids()[q]][entity as nat],
                forall|q: int| 0 <= q < n ==> (#[trigger] comps@[q]).type_id == a.column_ids()[q],
                forall|q: int| 0 <= q < n ==> (#[trigger] a.column_ids()[q] as nat) < usize::MAX,
                distinct_ids(a.column_ids()),
                j <= n,
                m.wf(),
                forall|k: nat| m@.dom().contains(k) <==> exists|q: int| 0 <= q < j && #[trigger] a.column_ids()[q] as nat == k,
                forall|q: int| 0 <= q < j ==> (#[trigger] m@[a.column_ids()[q] as nat]).model() == a.table()[a.column_ids()[q]][entity as nat].model(),
            decreases n - j,
        {
            let d = comps[j].duplicate();
            let c = comps[j].type_id;
            m.insert(c, d);
            proof {
                assert forall|k: nat| m@.dom().contains(k) <==> exists|q: int| 0 <= q < j + 1 && #[trigger] a.column_ids()[q] as nat == k by {
                    if m@.dom().contains(k) && k != c as nat {
                        let q = choose|q: int| 0 <= q < j && #[trigger] a.column_ids()[q] as nat == k;
                    }
                    if exists|q: int| 0 <= q < j + 1 && #[trigger] a.column_ids()[q] as nat == k {
                        let q = choose|q: int| 0 <= q < j + 1 && #[trigger] a.column_ids()[q] as nat == k;
                        if q < j {
                            assert(exists|q2: int| 0 <= q2 < j && #[trigger] a.column_ids()[q2] as nat == k);
                        }
                    }
                }
                assert forall|q: int| 0 <= q < j + 1 implies (#[trigger] m@[a.column_ids()[q] as nat]).model() == a.table()[a.column_ids()[q]][entity as nat].model() by {
                    if q < j {
                        assert(a.column_ids()[q] != a.column_ids()[j as int]);
                    }
                }
            }
            j = j + 1;
        }
        proof {
            assert forall|c: DynamicId| m@.dom().contains(c as nat) <==> self.components_of(entity as nat).dom().contains(c) by {
                if m@.dom().contains(c as nat) {
                    let q = choose|q: int| 0 <= q < n && #[trigger] a.column_ids()[q] as nat == c as nat;
                    assert(a.columns.entries()[q].0 == a.column_ids()[q]);
                }
                if self.components_of(entity as nat).dom().contains(c) {
                    let q = choose|q: int| 0 <= q < a.column_ids().len() && a.column_ids()[q] == c;
                    assert(a.column_ids()[q] as nat == c as nat);
                }
            }
            assert forall|k: nat| m@.dom().contains(k) implies k <= u32::MAX by {
                let q = choose|q: int| 0 <= q < n && #[trigger] a.column_ids()[q] as nat == k;
            }
            assert forall|c: DynamicId| #[trigger] m@.dom().contains(c as nat) implies m@[c as nat].model() == self.components_of(entity as nat)[c].model() by {
                let q = choose|q: int| 0 <= q < n && #[trigger] a.column_ids()[q] as nat == c as nat;
                assert(a.column_ids()[q] == c);
            }
        }
        m
    }

    /// For each living entity in an archetype that the access matches, a copy of its components
    /// keyed by type.
    pub fn components_matching_access(&self, access: &QueryAccess) -> (r: SparseSet<Entity, SparseSet<DynamicId, Data>>)
        requires
            self.wf(),
            access.wf(),
        ensures
            r.wf(),
            forall|k: nat| r@.dom().contains(k) <==> self.matched(access, k),
            forall|i: int| 0 <= i < r.keys().len() ==> #[trigger] r.keys()[i] == self.living()[r.keys()[i].index_key()],
            forall|k: nat| #[trigger] r@.dom().contains(k) ==> {
                &&& r@[k].wf()
                &&& forall|c: DynamicId| r@[k]@.dom().contains(c as nat) <==> self.components_of(k).dom().contains(c)
                &&& forall|c: DynamicId| #[trigger] r@[k]@.dom().contains(c as nat) ==> r@[k]@[c as nat].model() == self.components_of(k)[c].model()
            },
    {
        let entities = self.entities_matching_access(access);
        let mut out: SparseSet<Entity, SparseSet<DynamicId, Data>> = SparseSet::new();
        let n = entities.len();
        let mut i: usize = 0;
        while i < n
            invariant
                self.wf(),
                access.wf(),
                n == entities@.len(),
                entities@.no_duplicates(),
                forall|x: Entity| entities@.contains(x) <==> exists|id: nat| #[trigger] self.matched(access, id) && x == self.living()[id],
                i <= n,
                out.wf(),
                forall|k: nat| out@.dom().contains(k) <==> exists|q: int| 0 <= q < i && (#[trigger] entities@[q]).index_key() == k,
                forall|q: int| 0 <= q < out.keys().len() ==> #[trigger] out.keys()[q] == self.living()[out.keys()[q].index_key()],
                forall|k: nat| #[trigger] out@.dom().contains(k) ==> {
                    &&& self.placement().dom().contains(k)
                    &&& out@[k].wf()
                    &&& forall|c: DynamicId| out@[k]@.dom().contains(c as nat) <==> self.components_of(k).dom().contains(c)
                    &&& forall|c: DynamicId| #[trigger] out@[k]@.dom().contains(c as nat) ==> out@[k]@[c as nat].model() == self.components_of(k)[c].model()
                },
            decreases n - i,
        {
            let e = entities[i];
            let ghost id = choose|id: nat| #[trigger] self.matched(access, id) && e == self.living()[id];
            proof {
                assert(entities@.contains(e));
                assert(self.living()[id].spec_id() == id);
                assert(self.entity_generations@.dom().contains(id));
                assert(e.index_key() == id);
            }
            let m = self.component_map(e.id());
            let ghost before = out;
            out.insert(e, m);
            proof {
                assert forall|k: nat| out@.dom().contains(k) <==> exists|q: int| 0 <= q < i + 1 && (#[trigger] entities@[q]).index_key() == k by {
                    if out@.dom().contains(k) && k != id {
                        let q = choose|q: int| 0 <= q < i && (#[trigger] entities@[q]).index_key() == k;
                    }
                    if exists|q: int| 0 <= q < i + 1 && (#[trigger] entities@[q]).index_key() == k {
                        let q = choose|q: int| 0 <= q < i + 1 && (#[trigger] entities@[q]).index_key() == k;
                        if q < i {
                            assert(exists|q2: int| 0 <= q2 < i && (#[trigger] entities@[q2]).index_key() == k);
                        }
                    }
                }
                assert forall|q: int| 0 <= q < out.keys().len() implies #[trigger] out.keys()[q] == self.living()[out.keys()[q].index_key()] by {
                    if q < before.keys().len() {
                        assert(out.keys()[q] == before.keys()[q]);
                    }
                }
            }
            i = i + 1;
        }
        proof {
            assert forall|k: nat| out@.dom().contains(k) <==> self.matched(access, k) by {
                if out@.dom().contains(k) {
                    let q = choose|q: int| 0 <= q < n && (#[trigger] entities@[q]).index_key() == k;
                    assert(entities@.contains(entities@[q]));
                    let id = choose|id: nat| #[trigger] self.matched(access, id) && entities@[q] == self.living()[id];
                    assert(self.living()[id].spec_id() == id);
                }
                if self.matched(access, k) {
                    assert(entities@.contains(self.living()[k]));
                    let q = choose|q: int| 0 <= q < n && entities@[q] == self.living()[k];
                    assert(self.living()[k].spec_id() == k);
                    assert(entities@[q].index_key() == k);
                }
            }
        }
        out
    }
}

} // verus!

verus! {

/// Reading a sparse set after writing to it: the key holds the value written, and every other
/// key keeps whether it is present and what it holds.
pub proof fn law_sparse_set_read_after_write<V>(before: Map<nat, V>, after: Map<nat, V>, k: nat, v: V, j: nat)
    requires
        after == before.insert(k, v),
    ensures
        after.dom().contains(k),
        after[k] == v,
        j != k ==> (after.dom().contains(j) == before.dom().contains(j)),
        j != k && before.dom().contains(j) ==> after[j] == before[j],
{
}

/// Inserting an index that the set does not hold and then removing it again gives back the
/// same set, down to the order of its dense storage.
pub proof fn law_sparse_set_insert_remove_roundtrip<I: Index, V>(
    s: SparseSet<I, V>,
    t: SparseSet<I, V>,
    u: SparseSet<I, V>,
    index: I,
    value: V,
)
    requires
        s.wf(),
        !s@.dom().contains(index.index_key()),
        t.wf(),
        t@ == s@.insert(index.index_key(), value),
        t.keys() == s.keys().push(index),
        t.values() == s.values().push(value),
        u@ == t@.remove(index.index_key()),
        u.keys() == t.keys().update(t.position_of(index.index_key()), t.keys().last()).drop_last(),
        u.values() == t.values().update(t.position_of(index.index_key()), t.values().last()).drop_last(),
    ensures
        u@ == s@,
        u.keys() == s.keys(),
        u.values() == s.values(),
{
    t.lemma_view();
    let last = t.keys().len() - 1;
    assert(t.keys()[last] == index);
    assert(t.position_of(index.index_key()) == last);
    assert(u.keys() =~= s.keys());
    assert(u.values() =~= s.values());
    assert(u@ =~= s@);
}

/// The number of values a sparse set holds is the number of distinct indices in it.
pub proof fn law_sparse_set_len_counts_indices<I: Index, V>(s: SparseSet<I, V>)
    requires
        s.wf(),
    ensures
        s.keys().len() == s@.dom().len(),
        s.values().len() == s@.dom().len(),
{
    s.lemma_view();
}

/// Despawning makes an entity dead, and its next incarnation carries a different generation,
/// so a handle taken before the despawn no longer names a living entity.
pub proof fn law_despawn_retires_handle(before: Components, after: Components, handle: Entity)
    requires
        before.wf(),
        before.living().dom().contains(handle.spec_id() as nat),
        before.living()[handle.spec_id() as nat] == handle,
        before.placement().dom().contains(handle.spec_id() as nat),
        after.living() == before.living().remove(handle.spec_id() as nat),
        after.generations() == before.generations().insert(
            handle.spec_id() as nat,
            (before.generations()[handle.spec_id() as nat] + 1) as u32,
        ),
        before.generations()[handle.spec_id() as nat] < u32::MAX,
    ensures
        !after.living().dom().contains(handle.spec_id() as nat),
        after.generations()[handle.spec_id() as nat] != handle.spec_generation(),
{
}

/// A despawned entity is matched by no query any more.
pub proof fn law_despawned_is_unmatched(before: Components, after: Components, access: QueryAccess, id: nat)
    requires
        after.living() == before.living().remove(id),
    ensures
        !after.matched(&access, id),
{
}

/// An entity placed in an archetype holds exactly one component of each of the archetype's
/// types, and every archetype has each of its members' components.
pub proof fn law_placed_entities_are_complete(c: Components, e: nat)
    requires
        c.wf(),
        c.placement().dom().contains(e),
    ensures
        c.placement()[e] < c.spec_archetypes().len(),
        c.components_of(e).dom() == c.spec_archetypes()[c.placement()[e] as int].table().dom(),
        forall|t: DynamicId| #[trigger] c.components_of(e).dom().contains(t) ==> c.components_of(e)[t].type_id == t,
{
    let a = c.spec_archetypes()[c.placement()[e] as int];
    assert(c.components_of(e).dom() =~= a.table().dom());
    assert forall|t: DynamicId| #[trigger] c.components_of(e).dom().contains(t) implies c.components_of(e)[t].type_id == t by {
        a.lemma_table();
        let j = choose|j: int| 0 <= j < a.column_ids().len() && a.column_ids()[j] == t;
        assert(a.columns.entries()[j].0 == t);
        let col = a.columns.entries()[j].1;
        a.lemma_entries_wf(j);
        col.lemma_cells_typed();
        assert(a.table()[t] == col.cells());
        if !a.members().contains(e) {
            assert(a.table().dom().len() > 0);
        }
        assert(a.table()[t].dom() == a.members());
    }
}

} // verus!
