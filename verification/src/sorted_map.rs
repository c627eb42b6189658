//! An ordered map: entries in a vector, ascending by key, found by bisection.
//!
//! Walking it by position visits the keys in ascending order, so every result
//! that depends on the order of a walk is determined by the contents alone.

use vstd::prelude::*;

use crate::order;

verus! {

/// Where one key stands relative to another.
#[derive(Debug, Clone, Copy, PartialEq, Eq, Structural)]
pub enum Precedence {
    Before,
    Same,
    After,
}

/// A key of a [`SortedMap`]: a value whose view has a strict total order.
pub trait Key: View + Sized {
    /// Whether `a` comes before `b`.
    spec fn less(a: Self::V, b: Self::V) -> bool;

    /// `less` is a strict total order.
    proof fn lemma_order()
        ensures
            order::strict_order(|a: Self::V, b: Self::V| Self::less(a, b)),
    ;

    /// Compares two keys.
    fn precedes(&self, other: &Self) -> (p: Precedence)
        ensures
            p is Before <==> Self::less(self@, other@),
            p is Same <==> self@ == other@,
            p is After <==> Self::less(other@, self@),
    ;
}

/// The order of the keys of type `K`, as a function.
pub open spec fn key_order<K: Key>() -> spec_fn(K::V, K::V) -> bool {
    |a: K::V, b: K::V| K::less(a, b)
}

/// The members of a set of keys in ascending order.
pub open spec fn in_order<K: Key>(keys: Set<K::V>) -> Seq<K::V> {
    order::ranking(keys, key_order::<K>())
}

/// Compares two numbers.
pub fn precedence(a: u64, b: u64) -> (p: Precedence)
    ensures
        p is Before <==> a < b,
        p is Same <==> a == b,
        p is After <==> b < a,
{
    if a < b {
        Precedence::Before
    } else if a == b {
        Precedence::Same
    } else {
        Precedence::After
    }
}

/// A map from keys to values that keeps its entries in ascending key order.
#[derive(Debug)]
pub struct SortedMap<K, T> {
    keys: Vec<K>,
    values: Vec<T>,
}

impl<K: Key, T> View for SortedMap<K, T> {
    type V = Map<K::V, T>;

    closed spec fn view(&self) -> Map<K::V, T> {
        Map::new(
            |k: K::V| self.keys().contains(k),
            |k: K::V| self.values@[self.keys().index_of(k)],
        )
    }
}

impl<K: Key, T> SortedMap<K, T> {
    /// The keys in ascending order.
    pub closed spec fn keys(&self) -> Seq<K::V> {
        self.keys@.map_values(|k: K| k@)
    }

    /// The values in the order of their keys.
    pub closed spec fn vals(&self) -> Seq<T> {
        self.values@
    }

    /// The entries are strictly ascending and each key has its value.
    pub closed spec fn wf(&self) -> bool {
        &&& self.keys@.len() == self.values@.len()
        &&& order::ascending(self.keys(), key_order::<K>())
    }

    /// How the two listings and the view fit together.
    pub proof fn lemma_entries(&self)
        requires
            self.wf(),
        ensures
            self.keys().len() == self.vals().len(),
            order::is_ranking(self.keys(), self@.dom(), key_order::<K>()),
            self.keys() == in_order::<K>(self@.dom()),
            self@.dom().finite(),
            self@.dom().len() == self.keys().len(),
            forall|i: int|
                0 <= i < self.keys().len() ==> self@.contains_key(#[trigger] self.keys()[i])
                    && self@[self.keys()[i]] == self.vals()[i],
            forall|i: int|
                0 <= i < self.vals().len() ==> self@.contains_key(self.keys()[i])
                    && self@[self.keys()[i]] == #[trigger] self.vals()[i],
            forall|k: K::V| #[trigger]
                self@.contains_key(k) ==> exists|i: int|
                    0 <= i < self.keys().len() && self.keys()[i] == k,
    {
        let ks = self.keys();
        K::lemma_order();
        assert forall|i: int| 0 <= i < ks.len() implies self@.contains_key(#[trigger] ks[i]) && self@[ks[i]]
            == self.vals()[i] by {
            assert(ks.contains(ks[i]));
            let j = ks.index_of(ks[i]);
            if i < j {
                assert(key_order::<K>()(ks[i], ks[j]));
            } else if j < i {
                assert(key_order::<K>()(ks[j], ks[i]));
            }
        }
        assert(order::is_ranking(ks, self@.dom(), key_order::<K>()));
        order::lemma_is_the_ranking(ks, self@.dom(), key_order::<K>());
        order::lemma_ranking_len(ks, self@.dom(), key_order::<K>());
        assert forall|i: int| 0 <= i < self.vals().len() implies self@.contains_key(ks[i]) && self@[ks[i]]
            == #[trigger] self.vals()[i] by {
            let k = ks[i];
            assert(self@.contains_key(k));
        }
    }

    /// An empty map.
    pub fn new() -> (m: Self)
        ensures
            m.wf(),
            m@ == Map::<K::V, T>::empty(),
    {
        let m = SortedMap { keys: Vec::new(), values: Vec::new() };
        assert(m@ =~= Map::<K::V, T>::empty());
        m
    }

    /// The number of entries.
    pub fn len(&self) -> (n: usize)
        requires
            self.wf(),
        ensures
            n == self@.dom().len(),
            n == self.keys().len(),
            n == self.vals().len(),
    {
        proof {
            self.lemma_entries();
        }
        self.keys.len()
    }

    /// The key at position `i` of the ascending order.
    pub fn key_at(&self, i: usize) -> (k: &K)
        requires
            self.wf(),
            i < self.keys().len(),
        ensures
            k@ == self.keys()[i as int],
    {
        &self.keys[i]
    }

    /// The value at position `i` of the ascending order.
    pub fn value_at(&self, i: usize) -> (v: &T)
        requires
            self.wf(),
            i < self.vals().len(),
        ensures
            *v == self.vals()[i as int],
    {
        &self.values[i]
    }

    /// The position of the first key that does not come before `key`.
    pub fn lower_bound(&self, key: &K) -> (i: usize)
        requires
            self.wf(),
        ensures
            i <= self.keys().len(),
            forall|j: int| 0 <= j < i ==> K::less(#[trigger] self.keys()[j], key@),
            forall|j: int| i <= j < self.keys().len() ==> !K::less(#[trigger] self.keys()[j], key@),
    {
        let mut lo: usize = 0;
        let mut hi: usize = self.keys.len();
        proof {
            K::lemma_order();
        }
        while lo < hi
            invariant
                self.wf(),
                order::strict_order(key_order::<K>()),
                lo <= hi <= self.keys().len(),
                forall|j: int| 0 <= j < lo ==> K::less(#[trigger] self.keys()[j], key@),
                forall|j: int| hi <= j < self.keys().len() ==> !K::less(#[trigger] self.keys()[j], key@),
            decreases hi - lo,
        {
            let mid: usize = lo + (hi - lo) / 2;
            let ghost lt = key_order::<K>();
            let ghost ks = self.keys();
            match self.keys[mid].precedes(key) {
                Precedence::Before => {
                    assert forall|j: int| 0 <= j < mid + 1 implies K::less(#[trigger] ks[j], key@) by {
                        if j < mid {
                            assert(lt(ks[j], ks[mid as int]));
                            assert(lt(ks[mid as int], key@));
                            assert(lt(ks[j], key@));
                        }
                    }
                    lo = mid + 1;
                },
                _ => {
                    assert forall|j: int| mid <= j < ks.len() implies !K::less(#[trigger] ks[j], key@) by {
                        if K::less(ks[j], key@) && mid < j {
                            assert(lt(ks[mid as int], ks[j]));
                            assert(lt(ks[j], key@));
                            assert(lt(ks[mid as int], key@));
                        }
                    }
                    hi = mid;
                },
            }
        }
        lo
    }

    /// The position of `key`, if the map holds it.
    pub fn position(&self, key: &K) -> (r: Option<usize>)
        requires
            self.wf(),
        ensures
            match r {
                Some(i) => {
                    &&& i < self.keys().len()
                    &&& self.keys()[i as int] == key@
                    &&& self@.contains_key(key@)
                    &&& self@[key@] == self.vals()[i as int]
                },
                None => !self@.contains_key(key@),
            },
    {
        let i: usize = self.lower_bound(key);
        proof {
            self.lemma_entries();
            K::lemma_order();
        }
        let ghost ks = self.keys();
        let ghost lt = key_order::<K>();
        if i < self.keys.len() {
            match self.keys[i].precedes(key) {
                Precedence::Same => {
                    assert(self@.contains_key(ks[i as int]));
                    return Some(i);
                },
                _ => {},
            }
        }
        proof {
            if self@.contains_key(key@) {
                let j = choose|j: int| 0 <= j < ks.len() && ks[j] == key@;
                if j < i {
                    assert(K::less(ks[j], key@));
                    assert(lt(key@, key@));
                } else {
                    assert(!K::less(ks[i as int], key@));
                    if i < j {
                        assert(lt(ks[i as int], ks[j]));
                    }
                }
            }
        }
        None
    }

    /// Whether the map holds `key`.
    pub fn contains_key(&self, key: &K) -> (b: bool)
        requires
            self.wf(),
        ensures
            b == self@.contains_key(key@),
    {
        self.position(key).is_some()
    }

    /// The value of `key`.
    pub fn get(&self, key: &K) -> (r: Option<&T>)
        requires
            self.wf(),
        ensures
            match r {
                Some(v) => self@.contains_key(key@) && *v == self@[key@],
                None => !self@.contains_key(key@),
            },
    {
        match self.position(key) {
            Some(i) => Some(&self.values[i]),
            None => None,
        }
    }

    /// The value of `key`, for change in place.
    pub fn get_mut(&mut self, key: &K) -> (r: Option<&mut T>)
        requires
            old(self).wf(),
        ensures
            final(self).wf(),
            match r {
                Some(v) => {
                    &&& old(self)@.contains_key(key@)
                    &&& *v == old(self)@[key@]
                    &&& final(self)@ == old(self)@.insert(key@, *final(v))
                },
                None => !old(self)@.contains_key(key@) && *final(self) == *old(self),
            },
    {
        match self.position(key) {
            Some(i) => {
                proof {
                    Self::lemma_update(*self, i as int);
                }
                Some(&mut self.values[i])
            },
            None => None,
        }
    }

    /// Replacing the value at a position is replacing it in the map.
    proof fn lemma_update(before: Self, i: int)
        requires
            before.wf(),
            0 <= i < before.keys().len(),
        ensures
            forall|after: Self, v: T|
                after.keys@ == before.keys@ && after.values@ == #[trigger] before.values@.update(i, v)
                    ==> after.wf() && #[trigger] after@ == before@.insert(before.keys()[i], v),
    {
        before.lemma_entries();
        assert forall|after: Self, v: T|
            after.keys@ == before.keys@ && after.values@ == #[trigger] before.values@.update(
                i,
                v,
            ) implies after.wf() && #[trigger] after@ == before@.insert(before.keys()[i], v) by {
            after.lemma_entries();
            assert(after.keys() == before.keys());
            assert forall|k: K::V| #[trigger] after@.contains_key(k) implies after@[k] == before@.insert(
                before.keys()[i],
                v,
            )[k] by {
                let j = choose|j: int| 0 <= j < after.keys().len() && after.keys()[j] == k;
                assert(after@[after.keys()[j]] == after.vals()[j]);
                assert(before@[before.keys()[j]] == before.vals()[j]);
            }
            assert(after@ =~= before@.insert(before.keys()[i], v));
        }
    }

    /// Sets the value of `key`, handing back the one it had.
    pub fn insert(&mut self, key: K, value: T) -> (r: Option<T>)
        requires
            old(self).wf(),
        ensures
            final(self).wf(),
            final(self)@ == old(self)@.insert(key@, value),
            match r {
                Some(v) => old(self)@.contains_key(key@) && v == old(self)@[key@],
                None => !old(self)@.contains_key(key@),
            },
    {
        let i: usize = self.lower_bound(&key);
        let ghost ks = self.keys();
        let ghost lt = key_order::<K>();
        let ghost before = *self;
        proof {
            self.lemma_entries();
            K::lemma_order();
        }
        if i < self.keys.len() {
            match self.keys[i].precedes(&key) {
                Precedence::Same => {
                    proof {
                        Self::lemma_update(*self, i as int);
                        assert(self@.contains_key(ks[i as int]));
                    }
                    let mut value = value;
                    std::mem::swap(&mut self.values[i], &mut value);
                    return Some(value);
                },
                _ => {},
            }
        }
        let ghost k = key@;
        assert(!before@.contains_key(k)) by {
            if before@.contains_key(k) {
                let j = choose|j: int| 0 <= j < ks.len() && ks[j] == k;
                if j < i {
                    assert(K::less(ks[j], k));
                    assert(lt(k, k));
                } else {
                    assert(!K::less(ks[i as int], k));
                    if i < j {
                        assert(lt(ks[i as int], ks[j]));
                    }
                }
            }
        }
        self.keys.insert(i, key);
        self.values.insert(i, value);
        proof {
            let after = *self;
            let ns = after.keys();
            assert(ns =~= ks.insert(i as int, k));
            assert forall|a: int, b: int| 0 <= a < b < ns.len() implies #[trigger] lt(ns[a], ns[b]) by {
                let oa = if a < i { a } else { a - 1 };
                let ob = if b < i { b } else { b - 1 };
                if a != i && b != i {
                    assert(lt(ks[oa], ks[ob]));
                } else if b == i {
                    assert(K::less(ks[oa], k));
                } else {
                    assert(!K::less(ks[ob], k));
                    assert(before@.contains_key(ks[ob]));
                    assert(lt(k, ks[ob]) || lt(ks[ob], k));
                }
            }
            after.lemma_entries();
            assert forall|x: K::V| #[trigger] after@.contains_key(x) <==> before@.insert(k, value).contains_key(x) by {
                if after@.contains_key(x) {
                    let j = choose|j: int| 0 <= j < ns.len() && ns[j] == x;
                    if j < i {
                        assert(before@.contains_key(ks[j]));
                    } else if j > i {
                        assert(before@.contains_key(ks[j - 1]));
                    }
                }
                if before@.contains_key(x) {
                    let j = choose|j: int| 0 <= j < ks.len() && ks[j] == x;
                    let nj = if j < i { j } else { j + 1 };
                    assert(ns[nj] == x);
                    assert(after@.contains_key(ns[nj]));
                }
                assert(after@.contains_key(ns[i as int]));
            }
            assert forall|x: K::V| #[trigger] after@.contains_key(x) implies after@[x] == before@.insert(k, value)[x] by {
                let j = choose|j: int| 0 <= j < ns.len() && ns[j] == x;
                assert(after@[ns[j]] == after.vals()[j]);
                if j < i {
                    assert(before@[ks[j]] == before.vals()[j]);
                } else if j > i {
                    assert(before@[ks[j - 1]] == before.vals()[j - 1]);
                }
            }
            assert(after@ =~= before@.insert(k, value));
        }
        None
    }

    /// Takes out the entry of `key`, handing back its value.
    pub fn remove(&mut self, key: &K) -> (r: Option<T>)
        requires
            old(self).wf(),
        ensures
            final(self).wf(),
            final(self)@ == old(self)@.remove(key@),
            match r {
                Some(v) => old(self)@.contains_key(key@) && v == old(self)@[key@],
                None => !old(self)@.contains_key(key@),
            },
    {
        let ghost before = *self;
        let ghost ks = self.keys();
        let ghost lt = key_order::<K>();
        match self.position(key) {
            Some(i) => {
                proof {
                    self.lemma_entries();
                    K::lemma_order();
                }
                self.keys.remove(i);
                let value = self.values.remove(i);
                proof {
                    let after = *self;
                    let ns = after.keys();
                    assert(ns =~= ks.remove(i as int));
                    assert forall|a: int, b: int| 0 <= a < b < ns.len() implies #[trigger] lt(ns[a], ns[b]) by {
                        let oa = if a < i { a } else { a + 1 };
                        let ob = if b < i { b } else { b + 1 };
                        assert(lt(ks[oa], ks[ob]));
                    }
                    after.lemma_entries();
                    assert forall|x: K::V| #[trigger] after@.contains_key(x) <==> before@.remove(key@).contains_key(x) by {
                        if after@.contains_key(x) {
                            let j = choose|j: int| 0 <= j < ns.len() && ns[j] == x;
                            let oj = if j < i { j } else { j + 1 };
                            assert(ks[oj] == x);
                            assert(before@.contains_key(ks[oj]));
                            if oj < i {
                                assert(lt(ks[oj], ks[i as int]));
                            } else {
                                assert(lt(ks[i as int], ks[oj]));
                            }
                        }
                        if before@.remove(key@).contains_key(x) {
                            assert(before@.contains_key(x));
                            let j = choose|j: int| 0 <= j < ks.len() && ks[j] == x;
                            let nj = if j < i { j } else { j - 1 };
                            assert(ns[nj] == x);
                            assert(after@.contains_key(ns[nj]));
                        }
                    }
                    assert forall|x: K::V| #[trigger] after@.contains_key(x) implies after@[x] == before@[x] by {
                        let j = choose|j: int| 0 <= j < ns.len() && ns[j] == x;
                        let oj = if j < i { j } else { j + 1 };
                        assert(after@[ns[j]] == after.vals()[j]);
                        assert(before@[ks[oj]] == before.vals()[oj]);
                    }
                    assert(after@ =~= before@.remove(key@));
                }
                Some(value)
            },
            None => {
                assert(self@ =~= before@.remove(key@));
                None
            },
        }
    }
}

} // verus!
