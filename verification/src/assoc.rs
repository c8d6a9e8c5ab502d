//! Keyed storage: a small association map with a mathematical `Map` as its view.

use crate::seqs::Dup;
use vstd::prelude::*;

verus! {

/// A storage key: a copyable value whose executable equality is the mathematical one.
pub trait Key: Copy {
    /// Whether the two keys are the same value.
    fn same(&self, other: &Self) -> (r: bool)
        ensures
            r == (*self == *other),
    ;
}

impl Key for u32 {
    fn same(&self, other: &Self) -> (r: bool) {
        *self == *other
    }
}

impl Key for u64 {
    fn same(&self, other: &Self) -> (r: bool) {
        *self == *other
    }
}

impl Key for i128 {
    fn same(&self, other: &Self) -> (r: bool) {
        *self == *other
    }
}

/// Whether some pair of `s` has the key `k`.
pub open spec fn has_key<K, V>(s: Seq<(K, V)>, k: K) -> bool {
    exists|i: int| 0 <= i < s.len() && #[trigger] s[i].0 == k
}

/// The position of the key `k` in `s`.
pub open spec fn key_index<K, V>(s: Seq<(K, V)>, k: K) -> int {
    choose|i: int| 0 <= i < s.len() && #[trigger] s[i].0 == k
}

/// No key occurs twice.
pub open spec fn distinct_keys<K, V>(s: Seq<(K, V)>) -> bool {
    forall|i: int, j: int|
        0 <= i < s.len() && 0 <= j < s.len() && i != j ==> #[trigger] s[i].0 != #[trigger] s[j].0
}

/// A map from keys to values, kept as a list of pairs with distinct keys.
pub struct AssocMap<K, V> {
    entries: Vec<(K, V)>,
}

impl<K, V> AssocMap<K, V> {
    #[verifier::type_invariant]
    spec fn inv(self) -> bool {
        distinct_keys(self.entries@)
    }
}

impl<K: Key, V: View> View for AssocMap<K, V> {
    type V = Map<K, V::V>;

    closed spec fn view(&self) -> Map<K, V::V> {
        let s = self.entries@;
        Map::new(|k: K| has_key(s, k), |k: K| s[key_index(s, k)].1@)
    }
}

impl<K: Key, V: View> AssocMap<K, V> {
    /// The empty map.
    pub fn new() -> (r: Self)
        ensures
            r@ == Map::<K, V::V>::empty(),
    {
        let r = AssocMap { entries: Vec::new() };
        assert(r@ =~= Map::<K, V::V>::empty());
        r
    }

    /// The position of `k`, or the number of entries when it is absent.
    fn position(&self, k: &K) -> (r: usize)
        ensures
            r <= self.entries@.len(),
            r < self.entries@.len() ==> self.entries@[r as int].0 == *k,
            r == self.entries@.len() ==> !has_key(self.entries@, *k),
    {
        let mut i: usize = 0;
        while i < self.entries.len()
            invariant
                i <= self.entries@.len(),
                forall|j: int| 0 <= j < i ==> #[trigger] self.entries@[j].0 != *k,
            decreases self.entries@.len() - i,
        {
            if self.entries[i].0.same(k) {
                return i;
            }
            i += 1;
        }
        i
    }

    /// The value stored under `k`.
    pub fn get(&self, k: &K) -> (r: Option<&V>)
        ensures
            r is Some <==> self@.contains_key(*k),
            r matches Some(v) ==> v@ == self@[*k],
    {
        proof {
            use_type_invariant(self);
        }
        let i: usize = self.position(k);
        if i < self.entries.len() {
            assert(has_key(self.entries@, *k));
            assert(key_index(self.entries@, *k) == i);
            Some(&self.entries[i].1)
        } else {
            None
        }
    }

    /// Whether a value is stored under `k`.
    pub fn contains(&self, k: &K) -> (r: bool)
        ensures
            r == self@.contains_key(*k),
    {
        self.get(k).is_some()
    }

    /// Stores `v` under `k`, in place of what was there.
    pub fn insert(&mut self, k: K, v: V)
        ensures
            final(self)@ == old(self)@.insert(k, v@),
    {
        proof {
            use_type_invariant(&*self);
        }
        let ghost s0 = self.entries@;
        let i: usize = self.position(&k);
        if i < self.entries.len() {
            let mut e: Vec<(K, V)> = Vec::new();
            core::mem::swap(&mut self.entries, &mut e);
            e.set(i, (k, v));
            self.entries = e;
            proof {
                let s1 = self.entries@;
                assert(s0[i as int].0 == k);
                assert forall|q: K| has_key(s0, q) == has_key(s1, q) by {
                    if has_key(s0, q) {
                        let j = key_index(s0, q);
                        assert(s1[j].0 == q);
                    }
                    if has_key(s1, q) {
                        let j = key_index(s1, q);
                        assert(s0[j].0 == q);
                    }
                }
                assert forall|q: K| has_key(s1, q) implies key_index(s0, q) == key_index(s1, q) by {
                    let j = key_index(s1, q);
                    assert(s0[j].0 == q);
                    assert(has_key(s0, q));
                    let j0 = key_index(s0, q);
                    assert(s0[j0].0 == q);
                }
                assert(has_key(s1, k)) by {
                    assert(s1[i as int].0 == k);
                }
                assert(key_index(s1, k) == i);
                assert(self@ =~= old(self)@.insert(k, v@));
            }
        } else {
            let mut e: Vec<(K, V)> = Vec::new();
            core::mem::swap(&mut self.entries, &mut e);
            e.push((k, v));
            self.entries = e;
            proof {
                let s1 = self.entries@;
                assert forall|q: K| q != k implies has_key(s0, q) == has_key(s1, q) by {
                    if has_key(s0, q) {
                        let j = key_index(s0, q);
                        assert(s1[j].0 == q);
                    }
                    if has_key(s1, q) {
                        let j = key_index(s1, q);
                        assert(s0[j].0 == q);
                    }
                }
                assert forall|q: K| q != k && has_key(s0, q) implies key_index(s0, q) == key_index(
                    s1,
                    q,
                ) by {
                    let j0 = key_index(s0, q);
                    assert(s1[j0].0 == q);
                    let j = key_index(s1, q);
                    assert(s1[j].0 == q);
                }
                assert(has_key(s1, k)) by {
                    assert(s1[i as int].0 == k);
                }
                assert(key_index(s1, k) == i);
                assert(self@ =~= old(self)@.insert(k, v@));
            }
        }
    }

    /// Drops the entry of `k` and returns its value.
    pub fn remove(&mut self, k: &K) -> (r: Option<V>)
        ensures
            final(self)@ == old(self)@.remove(*k),
            r is Some <==> old(self)@.contains_key(*k),
            r matches Some(v) ==> v@ == old(self)@[*k],
    {
        proof {
            use_type_invariant(&*self);
        }
        let ghost s0 = self.entries@;
        let i: usize = self.position(k);
        if i < self.entries.len() {
            assert(has_key(s0, *k));
            assert(key_index(s0, *k) == i);
            let mut e: Vec<(K, V)> = Vec::new();
            core::mem::swap(&mut self.entries, &mut e);
            let (_, v) = e.remove(i);
            self.entries = e;
            proof {
                let s1 = self.entries@;
                assert forall|q: K| q != *k implies has_key(s0, q) == has_key(s1, q) by {
                    if has_key(s0, q) {
                        let j = key_index(s0, q);
                        let j1 = if j < i {
                            j
                        } else {
                            j - 1
                        };
                        assert(s1[j1].0 == q);
                    }
                    if has_key(s1, q) {
                        let j = key_index(s1, q);
                        let j0 = if j < i {
                            j
                        } else {
                            j + 1
                        };
                        assert(s0[j0].0 == q);
                    }
                }
                assert(!has_key(s1, *k)) by {
                    if has_key(s1, *k) {
                        let j = key_index(s1, *k);
                        let j0 = if j < i {
                            j
                        } else {
                            j + 1
                        };
                        assert(s0[j0].0 == *k);
                    }
                }
                assert forall|q: K| has_key(s1, q) implies s0[key_index(s0, q)] == s1[key_index(
                    s1,
                    q,
                )] by {
                    let j = key_index(s1, q);
                    let j0 = if j < i {
                        j
                    } else {
                        j + 1
                    };
                    assert(s0[j0].0 == q);
                    assert(key_index(s0, q) == j0);
                }
                assert(self@ =~= old(self)@.remove(*k));
            }
            Some(v)
        } else {
            assert(self@ =~= old(self)@.remove(*k));
            None
        }
    }
}

impl<K: Key, V: Dup> Dup for AssocMap<K, V> {
    fn dup(&self) -> (r: Self) {
        proof {
            use_type_invariant(self);
        }
        let mut e: Vec<(K, V)> = Vec::new();
        let mut i: usize = 0;
        while i < self.entries.len()
            invariant
                i <= self.entries@.len(),
                e@.len() == i,
                distinct_keys(self.entries@),
                forall|j: int|
                    0 <= j < i ==> (#[trigger] e@[j]).0 == self.entries@[j].0 && e@[j].1@
                        == self.entries@[j].1@,
            decreases self.entries@.len() - i,
        {
            let v = self.entries[i].1.dup();
            e.push((self.entries[i].0, v));
            i += 1;
        }
        let r = AssocMap { entries: e };
        proof {
            let s0 = self.entries@;
            let s1 = r.entries@;
            assert forall|q: K| has_key(s0, q) == has_key(s1, q) by {
                if has_key(s0, q) {
                    assert(s1[key_index(s0, q)].0 == q);
                }
                if has_key(s1, q) {
                    assert(s0[key_index(s1, q)].0 == q);
                }
            }
            assert forall|q: K| has_key(s0, q) implies key_index(s0, q) == key_index(s1, q) by {
                assert(s0[key_index(s0, q)].0 == q);
                assert(has_key(s1, q));
                assert(s0[key_index(s1, q)].0 == q);
            }
            assert(r@ =~= self@);
        }
        r
    }
}

/// What `m` holds under `k`, or `d` when it holds nothing there.
pub open spec fn value_or<K, V>(m: Map<K, V>, k: K, d: V) -> V {
    if m.contains_key(k) {
        m[k]
    } else {
        d
    }
}

} // verus!
