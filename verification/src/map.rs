//! The key-value layer: storing `KeyValuePair`s, whose ordering ignores
//! the value, turns the ordered set into an ordered map.

use vstd::prelude::*;

use crate::SmallOrdSet;
use crate::TotalOrder;
use crate::lemma_remove_wf;
use crate::lemma_update_eqv_wf;
use crate::lemma_wf_unique;
use crate::order::before;
use crate::order::eqv;
use crate::order::lemma_before_trans;
use crate::set_insert;

verus! {

/// A key-value pair. When used as the element type of a `SmallOrdSet`,
/// it acts as a map.
///
/// The ordering of this type looks only at the key: two pairs with
/// equal keys and different values compare equal. This property also
/// applies to `SmallOrdSet<KeyValuePair<K, V>>`.
#[derive(Clone, Copy, Debug)]
pub struct KeyValuePair<K, V> {
    /// The key, which alone decides ordering and equality.
    pub key: K,
    /// The value: inert data carried alongside the key.
    pub value: V,
}

impl<K: TotalOrder, V> TotalOrder for KeyValuePair<K, V> {
    open spec fn leq(self, other: Self) -> bool {
        self.key.leq(other.key)
    }

    proof fn lemma_total(a: Self, b: Self) {
        K::lemma_total(a.key, b.key);
    }

    proof fn lemma_transitive(a: Self, b: Self, c: Self) {
        K::lemma_transitive(a.key, b.key, c.key);
    }

    fn leq_exec(&self, other: &Self) -> (r: bool) {
        self.key.leq_exec(&other.key)
    }
}

/// Some pair of `s` has a key equal to `k`.
pub open spec fn contains_key<K: TotalOrder, V>(s: Seq<KeyValuePair<K, V>>, k: K) -> bool {
    exists|i: int| 0 <= i < s.len() && eqv(#[trigger] s[i].key, k)
}

/// Holding a pair whose key equals `k` is the same as holding an
/// element that compares equal to the pair `(k, v)`, whatever `v` is:
/// pair comparison ignores the value.
pub proof fn lemma_contains_key_pair<K: TotalOrder, V>(s: Seq<KeyValuePair<K, V>>, k: K, v: V)
    ensures
        contains_key(s, k) == crate::contains_eqv(s, KeyValuePair { key: k, value: v }),
{
    let p = KeyValuePair { key: k, value: v };
    if contains_key(s, k) {
        let i = choose|i: int| 0 <= i < s.len() && eqv(#[trigger] s[i].key, k);
        assert(eqv(s[i], p));
        assert(crate::contains_eqv(s, p));
    }
    if crate::contains_eqv(s, p) {
        let i = choose|i: int| 0 <= i < s.len() && eqv(s[i], p);
        assert(eqv(s[i].key, k));
        assert(contains_key(s, k));
    }
}

/// After adding the pair `(k, v)` to a map that holds no key equal to
/// `k`, every pair whose key equals `k` — and there is one — is exactly
/// `(k, v)`: a lookup after `insert_value(k, v)` finds precisely `v`.
/// (`remove_value` itself ensures that after it no such key remains.)
pub proof fn lemma_map_insert_get<K: TotalOrder, V>(s: Seq<KeyValuePair<K, V>>, k: K, v: V)
    requires
        crate::wf_seq(s),
        !contains_key(s, k),
    ensures
        crate::wf_seq(set_insert(s, (KeyValuePair { key: k, value: v }))),
        contains_key(set_insert(s, (KeyValuePair { key: k, value: v })), k),
        forall|i: int|
            0 <= i < set_insert(s, (KeyValuePair { key: k, value: v })).len() && eqv(
                #[trigger] set_insert(s, (KeyValuePair { key: k, value: v }))[i].key,
                k,
            ) ==> set_insert(s, (KeyValuePair { key: k, value: v }))[i] == (KeyValuePair {
                key: k,
                value: v,
            }),
{
    let p = KeyValuePair { key: k, value: v };
    lemma_contains_key_pair(s, k, v);
    crate::lemma_set_insert_props(s, p);
    let t = set_insert(s, p);
    let ip = crate::insertion_point(s, p);
    crate::lemma_insertion_point_sandwich(s, p);
    assert(t == s.insert(ip, p));
    assert(t[ip] == p);
    K::lemma_total(k, k);
    assert(eqv(t[ip], p));
    lemma_wf_unique(t, ip, p);
    assert forall|i: int| 0 <= i < t.len() && eqv(#[trigger] t[i].key, k) implies t[i] == p by {
        assert(eqv(t[i], p));
    }
    assert(contains_key(t, k)) by {
        assert(eqv(t[ip].key, k));
    }
}

impl<K: TotalOrder, V> SmallOrdSet<KeyValuePair<K, V>> {
    /// Binary search by key alone: `Ok(i)` when the pair at `i` has a
    /// key equal to `key`, else `Err(i)` with the sort-preserving
    /// insertion index.
    pub(crate) fn find_key(&self, key: &K) -> (r: Result<usize, usize>)
        requires
            self.well_formed(),
        ensures
            match r {
                Ok(i) => 0 <= i < self@.len() && eqv(self@[i as int].key, *key),
                Err(i) => {
                    &&& i <= self@.len()
                    &&& forall|j: int| 0 <= j < i ==> before(#[trigger] self@[j].key, *key)
                    &&& forall|j: int| i <= j < self@.len() ==> before(*key, #[trigger] self@[j].key)
                },
            },
    {
        let len = self.len();
        let mut lo: usize = 0;
        let mut hi: usize = len;
        while lo < hi
            invariant
                self.well_formed(),
                lo <= hi <= self@.len(),
                forall|j: int| 0 <= j < lo ==> before(#[trigger] self@[j].key, *key),
                forall|j: int| hi <= j < self@.len() ==> (*key).leq(#[trigger] self@[j].key),
            decreases hi - lo,
        {
            let mid = lo + (hi - lo) / 2;
            let probe = self.get_at(mid);
            if key.leq_exec(&probe.key) {
                proof {
                    assert forall|j: int| mid <= j < self@.len() implies (*key).leq(
                        #[trigger] self@[j].key,
                    ) by {
                        if j > mid {
                            assert(before(self@[mid as int], self@[j]));
                            K::lemma_transitive(*key, self@[mid as int].key, self@[j].key);
                        }
                    }
                }
                hi = mid;
            } else {
                proof {
                    K::lemma_total(*key, self@[mid as int].key);
                    assert(before(self@[mid as int].key, *key));
                    assert forall|j: int| 0 <= j < mid + 1 implies before(
                        #[trigger] self@[j].key,
                        *key,
                    ) by {
                        if j < mid {
                            assert(before(self@[j], self@[mid as int]));
                            lemma_before_trans(self@[j].key, self@[mid as int].key, *key);
                        }
                    }
                }
                lo = mid + 1;
            }
        }
        if lo < len {
            let probe = self.get_at(lo);
            if probe.key.leq_exec(key) {
                Ok(lo)
            } else {
                proof {
                    assert forall|j: int| lo <= j < self@.len() implies before(
                        *key,
                        #[trigger] self@[j].key,
                    ) by {
                        if j > lo {
                            assert(before(self@[lo as int], self@[j]));
                            lemma_before_trans(*key, self@[lo as int].key, self@[j].key);
                        }
                    }
                }
                Err(lo)
            }
        } else {
            Err(lo)
        }
    }

    /// Inserts a key-value pair into the map: a convenience wrapper
    /// around `insert`, so a pair whose key is already present is
    /// dropped and the stored pair kept.
    pub fn insert_value(&mut self, key: K, value: V) -> (r: bool)
        requires
            old(self).well_formed(),
            old(self)@.len() < usize::MAX,
        ensures
            final(self).well_formed(),
            final(self)@ == set_insert(old(self)@, KeyValuePair { key, value }),
            r == !contains_key(old(self)@, key),
            contains_key(final(self)@, key),
            !r ==> final(self)@ == old(self)@,
    {
        proof {
            lemma_contains_key_pair(self@, key, value);
        }
        let ghost s0 = self@;
        let r = self.insert(KeyValuePair { key, value });
        proof {
            lemma_contains_key_pair(self@, key, value);
        }
        r
    }

    /// Replaces a key-value pair in the map: a convenience wrapper
    /// around `replace`. The new pair is stored either way; the old
    /// pair's value, if a pair with an equal key was there, is
    /// returned.
    pub fn replace_value(&mut self, key: K, value: V) -> (r: Option<V>)
        requires
            old(self).well_formed(),
            old(self)@.len() < usize::MAX,
        ensures
            final(self).well_formed(),
            contains_key(final(self)@, key),
            match r {
                Some(v) => exists|i: int|
                    0 <= i < old(self)@.len() && eqv(#[trigger] old(self)@[i].key, key) && v == old(
                        self,
                    )@[i].value && final(self)@ == old(self)@.update(
                        i,
                        KeyValuePair { key, value },
                    ),
                None => {
                    &&& !contains_key(old(self)@, key)
                    &&& final(self)@ == set_insert(old(self)@, KeyValuePair { key, value })
                },
            },
    {
        proof {
            lemma_contains_key_pair(self@, key, value);
        }
        let ghost s0 = self@;
        match self.replace(KeyValuePair { key, value }) {
            Some(prev) => {
                proof {
                    lemma_contains_key_pair(self@, key, value);
                    let i = choose|i: int|
                        0 <= i < s0.len() && prev == s0[i] && self@ == s0.update(
                            i,
                            KeyValuePair { key, value },
                        );
                    assert(eqv(s0[i].key, key));
                    assert(prev.value == s0[i].value);
                }
                Some(prev.value)
            },
            None => {
                proof {
                    lemma_contains_key_pair(self@, key, value);
                }
                None
            },
        }
    }

    /// Removes the pair, if any, whose key equals `key`, and returns
    /// its value.
    pub fn remove_value(&mut self, key: &K) -> (r: Option<V>)
        requires
            old(self).well_formed(),
        ensures
            final(self).well_formed(),
            !contains_key(final(self)@, *key),
            match r {
                Some(v) => exists|i: int|
                    0 <= i < old(self)@.len() && eqv(#[trigger] old(self)@[i].key, *key) && v
                        == old(self)@[i].value && final(self)@ == old(self)@.remove(i),
                None => final(self)@ == old(self)@ && !contains_key(old(self)@, *key),
            },
    {
        match self.find_key(key) {
            Ok(idx) => {
                proof {
                    lemma_remove_wf(self@, idx as int);
                    lemma_wf_unique(
                        self@,
                        idx as int,
                        KeyValuePair { key: *key, value: self@[idx as int].value },
                    );
                }
                let ghost s0 = self@;
                let p = self.buf.remove_at(idx);
                proof {
                    assert forall|k: int| 0 <= k < self@.len() implies !eqv(
                        #[trigger] self@[k].key,
                        *key,
                    ) by {
                        let k0: int = if k < idx as int {
                            k
                        } else {
                            k + 1
                        };
                        assert(self@[k] == s0[k0]);
                        assert(!eqv(s0[k0], KeyValuePair { key: *key, value: s0[idx as int].value }));
                    }
                    if contains_key(self@, *key) {
                        let k = choose|k: int| 0 <= k < self@.len() && eqv(#[trigger] self@[k].key, *key);
                        assert(false);
                    }
                }
                Some(p.value)
            },
            Err(idx) => {
                proof {
                    assert forall|k: int| 0 <= k < self@.len() implies !eqv(
                        #[trigger] self@[k].key,
                        *key,
                    ) by {
                        if k < idx as int {
                            assert(before(self@[k].key, *key));
                        } else {
                            assert(before(*key, self@[k].key));
                        }
                    }
                    if contains_key(self@, *key) {
                        let k = choose|k: int| 0 <= k < self@.len() && eqv(#[trigger] self@[k].key, *key);
                        assert(false);
                    }
                }
                None
            },
        }
    }

    /// Gets a reference to the value for a key in the map.
    pub fn get_value(&self, key: &K) -> (r: Option<&V>)
        requires
            self.well_formed(),
        ensures
            match r {
                Some(v) => exists|i: int|
                    0 <= i < self@.len() && eqv(#[trigger] self@[i].key, *key) && *v
                        == self@[i].value,
                None => !contains_key(self@, *key),
            },
    {
        match self.find_key(key) {
            Ok(idx) => Some(&self.get_at(idx).value),
            Err(idx) => {
                proof {
                    if contains_key(self@, *key) {
                        let k = choose|k: int| 0 <= k < self@.len() && eqv(#[trigger] self@[k].key, *key);
                        assert(before(*key, self@[k].key) || before(self@[k].key, *key));
                        assert(false);
                    }
                }
                None
            },
        }
    }

    /// Gets a mutable reference to the value for a key in the map.
    /// Unlike `get_mut`, only the value can be reached, so the order of
    /// the elements cannot change: the set stays well formed whatever
    /// is written through the reference.
    pub fn get_value_mut(&mut self, key: &K) -> (r: Option<&mut V>)
        requires
            old(self).well_formed(),
        ensures
            final(self).well_formed(),
            match r {
                Some(v) => exists|i: int|
                    0 <= i < old(self)@.len() && eqv(#[trigger] old(self)@[i].key, *key) && *v
                        == old(self)@[i].value && final(self)@ == old(self)@.update(
                        i,
                        KeyValuePair { key: old(self)@[i].key, value: *final(v) },
                    ),
                None => final(self)@ == old(self)@ && !contains_key(old(self)@, *key),
            },
    {
        match self.find_key(key) {
            Ok(idx) => {
                let ghost s0 = self@;
                let p = self.buf.get_mut(idx);
                let v = &mut p.value;
                proof {
                    K::lemma_total(s0[idx as int].key, s0[idx as int].key);
                    lemma_update_eqv_wf(
                        s0,
                        idx as int,
                        KeyValuePair { key: s0[idx as int].key, value: *final(v) },
                    );
                }
                Some(v)
            },
            Err(idx) => {
                proof {
                    if contains_key(self@, *key) {
                        let k = choose|k: int| 0 <= k < self@.len() && eqv(#[trigger] self@[k].key, *key);
                        assert(false);
                    }
                }
                None
            },
        }
    }

    /// All keys of the map, in ascending order.
    pub fn keys(&self) -> (r: Vec<K>)
        where K: Copy
        ensures
            r@.len() == self@.len(),
            forall|i: int| 0 <= i < r@.len() ==> #[trigger] r@[i] == self@[i].key,
    {
        let mut out: Vec<K> = Vec::new();
        let n = self.len();
        let mut i: usize = 0;
        while i < n
            invariant
                n == self@.len(),
                i <= n,
                out@.len() == i,
                forall|j: int| 0 <= j < i ==> #[trigger] out@[j] == self@[j].key,
            decreases n - i,
        {
            let p = self.get_at(i);
            out.push(p.key);
            i += 1;
        }
        out
    }

    /// All values of the map, in ascending order of their keys.
    pub fn values(&self) -> (r: Vec<V>)
        where V: Copy
        ensures
            r@.len() == self@.len(),
            forall|i: int| 0 <= i < r@.len() ==> #[trigger] r@[i] == self@[i].value,
    {
        let mut out: Vec<V> = Vec::new();
        let n = self.len();
        let mut i: usize = 0;
        while i < n
            invariant
                n == self@.len(),
                i <= n,
                out@.len() == i,
                forall|j: int| 0 <= j < i ==> #[trigger] out@[j] == self@[j].value,
            decreases n - i,
        {
            let p = self.get_at(i);
            out.push(p.value);
            i += 1;
        }
        out
    }
}

} // verus!
