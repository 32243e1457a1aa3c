//! The entry view: a cursor over a vacant-or-occupied position of a
//! map, obtained from one search, so a look-up-then-mutate sequence
//! needs no second search.
//!
//! The cursor holds the position it was computed for, not a borrow of
//! the set, so each operation takes the set again; its precondition,
//! `valid_for`, states that the set still has the contents the cursor
//! was made from — which is exactly what the exclusive borrow of the
//! classic entry pattern enforces.

use vstd::prelude::*;

use crate::KeyValuePair;
use crate::SmallOrdSet;
use crate::TotalOrder;
use crate::contains_key;
use crate::lemma_insert_wf;
use crate::lemma_remove_wf;
use crate::lemma_update_eqv_wf;
use crate::order::before;
use crate::order::eqv;
use crate::set_insert;

verus! {

/// A view into a single entry of a map, which may be vacant or
/// occupied. Constructed by the `entry` method on `SmallOrdSet`.
pub enum Entry<K> {
    /// An occupied entry: a pair with an equal key sits at the held
    /// position.
    Occupied(OccupiedEntry),
    /// A vacant entry: no pair has an equal key; the held position is
    /// where one would be inserted.
    Vacant(VacantEntry<K>),
}

/// A view into an occupied entry. It is part of the [`Entry`] enum.
#[derive(Clone, Copy)]
pub struct OccupiedEntry {
    idx: usize,
}

/// A view into a vacant entry, carrying the key that was looked up. It
/// is part of the [`Entry`] enum.
pub struct VacantEntry<K> {
    idx: usize,
    key: K,
}

impl OccupiedEntry {
    /// The position this entry points at.
    pub closed spec fn index(self) -> int {
        self.idx as int
    }
}

impl<K> VacantEntry<K> {
    /// The position an inserted pair would take.
    pub closed spec fn index(self) -> int {
        self.idx as int
    }

    /// The key that was looked up and found absent.
    pub closed spec fn spec_key(self) -> K {
        self.key
    }
}

impl<K: TotalOrder> Entry<K> {
    /// The entry points at a position meaningful for a set with
    /// contents `s`: an occupied entry at an existing pair, a vacant
    /// entry at the sorted position of its absent key.
    pub open spec fn valid_for<V>(self, s: Seq<KeyValuePair<K, V>>) -> bool {
        match self {
            Entry::Occupied(o) => 0 <= o.index() < s.len(),
            Entry::Vacant(v) => {
                &&& 0 <= v.index() <= s.len()
                &&& forall|j: int| 0 <= j < v.index() ==> before(#[trigger] s[j].key, v.spec_key())
                &&& forall|j: int|
                    v.index() <= j < s.len() ==> before(v.spec_key(), #[trigger] s[j].key)
            },
        }
    }
}

impl<K: TotalOrder, V> SmallOrdSet<KeyValuePair<K, V>> {
    /// Gets the given key's corresponding entry in the map, from a
    /// single search, for in-place manipulation.
    pub fn entry(&self, key: K) -> (e: Entry<K>)
        requires
            self.well_formed(),
        ensures
            e.valid_for(self@),
            match e {
                Entry::Occupied(o) => eqv(self@[o.index()].key, key) && contains_key(self@, key),
                Entry::Vacant(v) => v.spec_key() == key && !contains_key(self@, key),
            },
    {
        match self.find_key(&key) {
            Ok(idx) => {
                proof {
                    assert(contains_key(self@, key));
                }
                Entry::Occupied(OccupiedEntry { idx })
            },
            Err(idx) => {
                proof {
                    if contains_key(self@, key) {
                        let k = choose|k: int|
                            0 <= k < self@.len() && eqv(#[trigger] self@[k].key, key);
                        if k < idx as int {
                            assert(before(self@[k].key, key));
                        } else {
                            assert(before(key, self@[k].key));
                        }
                        assert(false);
                    }
                }
                Entry::Vacant(VacantEntry { idx, key })
            },
        }
    }
}

impl<K: TotalOrder> Entry<K> {
    /// Ensures a value is in the entry by inserting `default` if
    /// vacant, and returns a mutable reference to the value in the
    /// entry. When nothing is written through the reference, the set
    /// afterwards is `set_insert` of the pair `(key, default)`: in
    /// particular a second, identical call changes nothing.
    pub fn or_insert<V>(self, set: &mut SmallOrdSet<KeyValuePair<K, V>>, default: V) -> (v: &mut
        V)
        requires
            old(set).well_formed(),
            old(set)@.len() < usize::MAX,
            self.valid_for(old(set)@),
        ensures
            final(set).well_formed(),
            match self {
                Entry::Occupied(o) => {
                    &&& *v == old(set)@[o.index()].value
                    &&& final(set)@ == old(set)@.update(
                        o.index(),
                        KeyValuePair { key: old(set)@[o.index()].key, value: *final(v) },
                    )
                    &&& (*final(v) == *v ==> final(set)@ == old(set)@)
                },
                Entry::Vacant(va) => {
                    &&& *v == default
                    &&& final(set)@ == old(set)@.insert(
                        va.index(),
                        KeyValuePair { key: va.spec_key(), value: *final(v) },
                    )
                    &&& (*final(v) == *v ==> final(set)@ == set_insert(
                        old(set)@,
                        KeyValuePair { key: va.spec_key(), value: default },
                    ))
                },
            },
    {
        match self {
            Entry::Occupied(o) => {
                let ghost s0 = set@;
                let p = set.buf.get_mut(o.idx);
                let v = &mut p.value;
                proof {
                    K::lemma_total(s0[o.idx as int].key, s0[o.idx as int].key);
                    lemma_update_eqv_wf(
                        s0,
                        o.idx as int,
                        KeyValuePair { key: s0[o.idx as int].key, value: *final(v) },
                    );
                    assert(s0.update(
                        o.idx as int,
                        KeyValuePair { key: s0[o.idx as int].key, value: s0[o.idx as int].value },
                    ) =~= s0);
                }
                v
            },
            Entry::Vacant(va) => {
                let VacantEntry { idx, key } = va;
                let ghost s0 = set@;
                let ghost k0 = key;
                set.buf.insert_at(idx, KeyValuePair { key, value: default });
                let p = set.buf.get_mut(idx);
                let v = &mut p.value;
                proof {
                    assert forall|j: int| 0 <= j < idx as int implies before(
                        s0[j],
                        KeyValuePair { key: k0, value: *final(v) },
                    ) by {
                        assert(before(s0[j].key, k0));
                    }
                    assert forall|j: int| idx as int <= j < s0.len() implies before(
                        KeyValuePair { key: k0, value: *final(v) },
                        s0[j],
                    ) by {
                        assert(before(k0, s0[j].key));
                    }
                    lemma_insert_wf(s0, idx as int, KeyValuePair { key: k0, value: *final(v) });
                    assert(s0.insert(idx as int, KeyValuePair { key: k0, value: default }).update(
                        idx as int,
                        KeyValuePair { key: k0, value: *final(v) },
                    ) =~= s0.insert(idx as int, KeyValuePair { key: k0, value: *final(v) }));
                    crate::lemma_insertion_point_from_sandwich(
                        s0,
                        KeyValuePair { key: k0, value: default },
                        idx as int,
                    );
                    assert(set_insert(s0, KeyValuePair { key: k0, value: default }) == s0.insert(
                        idx as int,
                        KeyValuePair { key: k0, value: default },
                    ));
                }
                v
            },
        }
    }

    /// Ensures a value is in the entry by inserting, if vacant, the
    /// result of the default function, and returns a mutable reference
    /// to the value in the entry. The function is not called on an
    /// occupied entry.
    pub fn or_insert_with<V, F: FnOnce() -> V>(
        self,
        set: &mut SmallOrdSet<KeyValuePair<K, V>>,
        default: F,
    ) -> (v: &mut V)
        requires
            old(set).well_formed(),
            old(set)@.len() < usize::MAX,
            self.valid_for(old(set)@),
            self matches Entry::Vacant(_) ==> call_requires(default, ()),
        ensures
            final(set).well_formed(),
            match self {
                Entry::Occupied(o) => {
                    &&& *v == old(set)@[o.index()].value
                    &&& final(set)@ == old(set)@.update(
                        o.index(),
                        KeyValuePair { key: old(set)@[o.index()].key, value: *final(v) },
                    )
                    &&& (*final(v) == *v ==> final(set)@ == old(set)@)
                },
                Entry::Vacant(va) => {
                    &&& call_ensures(default, (), *v)
                    &&& final(set)@ == old(set)@.insert(
                        va.index(),
                        KeyValuePair { key: va.spec_key(), value: *final(v) },
                    )
                },
            },
    {
        match self {
            Entry::Occupied(o) => {
                let ghost s0 = set@;
                let p = set.buf.get_mut(o.idx);
                let v = &mut p.value;
                proof {
                    K::lemma_total(s0[o.idx as int].key, s0[o.idx as int].key);
                    lemma_update_eqv_wf(
                        s0,
                        o.idx as int,
                        KeyValuePair { key: s0[o.idx as int].key, value: *final(v) },
                    );
                    assert(s0.update(
                        o.idx as int,
                        KeyValuePair { key: s0[o.idx as int].key, value: s0[o.idx as int].value },
                    ) =~= s0);
                }
                v
            },
            Entry::Vacant(va) => {
                let d = default();
                Entry::Vacant(va).or_insert(set, d)
            },
        }
    }

    /// Returns a reference to this entry's key: the stored pair's key
    /// when occupied, the looked-up key when vacant.
    pub fn key<'a, V>(&'a self, set: &'a SmallOrdSet<KeyValuePair<K, V>>) -> (k: &'a K)
        requires
            self.valid_for(set@),
        ensures
            match self {
                Entry::Occupied(o) => *k == set@[o.index()].key,
                Entry::Vacant(v) => *k == v.spec_key(),
            },
    {
        match self {
            Entry::Occupied(o) => &set.buf.get(o.idx).key,
            Entry::Vacant(v) => &v.key,
        }
    }

    /// Provides in-place access to an occupied entry's value before any
    /// potential insert: the value is replaced by what `f` makes of it.
    /// A vacant entry is passed through untouched, preserving it for a
    /// later insert decision.
    pub fn and_modify<V, F: FnOnce(V) -> V>(
        self,
        set: &mut SmallOrdSet<KeyValuePair<K, V>>,
        f: F,
    ) -> (e: Entry<K>)
        requires
            old(set).well_formed(),
            old(set)@.len() < usize::MAX,
            self.valid_for(old(set)@),
            self matches Entry::Occupied(o) ==> call_requires(f, (old(set)@[o.index()].value,)),
        ensures
            final(set).well_formed(),
            e == self,
            e.valid_for(final(set)@),
            match self {
                Entry::Occupied(o) => exists|v2: V|
                    #[trigger] call_ensures(f, (old(set)@[o.index()].value,), v2) && final(set)@
                        == old(set)@.update(
                        o.index(),
                        KeyValuePair { key: old(set)@[o.index()].key, value: v2 },
                    ),
                Entry::Vacant(_) => final(set)@ == old(set)@,
            },
    {
        match self {
            Entry::Occupied(o) => {
                let ghost s0 = set@;
                let p = set.buf.remove_at(o.idx);
                let KeyValuePair { key, value } = p;
                let value2 = f(value);
                set.buf.insert_at(o.idx, KeyValuePair { key, value: value2 });
                proof {
                    assert(set@ =~= s0.update(
                        o.idx as int,
                        KeyValuePair { key: s0[o.idx as int].key, value: value2 },
                    ));
                    K::lemma_total(s0[o.idx as int].key, s0[o.idx as int].key);
                    lemma_update_eqv_wf(
                        s0,
                        o.idx as int,
                        KeyValuePair { key: s0[o.idx as int].key, value: value2 },
                    );
                }
                Entry::Occupied(o)
            },
            Entry::Vacant(v) => Entry::Vacant(v),
        }
    }
}

impl OccupiedEntry {
    /// Gets a reference to the pair at the entry.
    pub fn get_entry<'a, K: TotalOrder, V>(
        &self,
        set: &'a SmallOrdSet<KeyValuePair<K, V>>,
    ) -> (r: &'a KeyValuePair<K, V>)
        requires
            self.index() < set@.len(),
        ensures
            *r == set@[self.index()],
    {
        set.buf.get(self.idx)
    }

    /// Takes ownership of the pair from the set, consuming the view.
    pub fn remove_entry<K: TotalOrder, V>(
        self,
        set: &mut SmallOrdSet<KeyValuePair<K, V>>,
    ) -> (r: KeyValuePair<K, V>)
        requires
            old(set).well_formed(),
            self.index() < old(set)@.len(),
        ensures
            final(set).well_formed(),
            r == old(set)@[self.index()],
            final(set)@ == old(set)@.remove(self.index()),
    {
        proof {
            lemma_remove_wf(set@, self.idx as int);
        }
        set.buf.remove_at(self.idx)
    }

    /// Gets a reference to the key of the pair at the entry.
    pub fn key<'a, K: TotalOrder, V>(&self, set: &'a SmallOrdSet<KeyValuePair<K, V>>) -> (k: &'a K)
        requires
            self.index() < set@.len(),
        ensures
            *k == set@[self.index()].key,
    {
        &set.buf.get(self.idx).key
    }

    /// Gets a reference to the value of the pair at the entry.
    pub fn get<'a, K: TotalOrder, V>(&self, set: &'a SmallOrdSet<KeyValuePair<K, V>>) -> (v: &'a V)
        requires
            self.index() < set@.len(),
        ensures
            *v == set@[self.index()].value,
    {
        &set.buf.get(self.idx).value
    }

    /// Gets a mutable reference to the value of the pair at the entry.
    /// Only the value can be written, so the set stays well formed.
    pub fn get_mut<'a, K: TotalOrder, V>(
        &self,
        set: &'a mut SmallOrdSet<KeyValuePair<K, V>>,
    ) -> (v: &'a mut V)
        requires
            old(set).well_formed(),
            self.index() < old(set)@.len(),
        ensures
            final(set).well_formed(),
            *v == old(set)@[self.index()].value,
            final(set)@ == old(set)@.update(
                self.index(),
                KeyValuePair { key: old(set)@[self.index()].key, value: *final(v) },
            ),
    {
        let ghost s0 = set@;
        let p = set.buf.get_mut(self.idx);
        let v = &mut p.value;
        proof {
            K::lemma_total(s0[self.idx as int].key, s0[self.idx as int].key);
            lemma_update_eqv_wf(
                s0,
                self.idx as int,
                KeyValuePair { key: s0[self.idx as int].key, value: *final(v) },
            );
        }
        v
    }

    /// Converts the view into a mutable reference to the value of the
    /// pair at the entry. Only the value can be written, so the set
    /// stays well formed.
    pub fn into_mut<K: TotalOrder, V>(self, set: &mut SmallOrdSet<KeyValuePair<K, V>>) -> (v: &mut
        V)
        requires
            old(set).well_formed(),
            self.index() < old(set)@.len(),
        ensures
            final(set).well_formed(),
            *v == old(set)@[self.index()].value,
            final(set)@ == old(set)@.update(
                self.index(),
                KeyValuePair { key: old(set)@[self.index()].key, value: *final(v) },
            ),
    {
        self.get_mut(set)
    }
}

/// Inserting a pair between a prefix of keys strictly before `k` and a
/// suffix of keys strictly after `k` keeps the sequence strictly
/// sorted, as long as the pair's key is equal to `k`.
proof fn lemma_insert_wf_keyed<K: TotalOrder, V>(
    s: Seq<KeyValuePair<K, V>>,
    i: int,
    p: KeyValuePair<K, V>,
    k: K,
)
    requires
        crate::wf_seq(s),
        0 <= i <= s.len(),
        forall|j: int| 0 <= j < i ==> before(#[trigger] s[j].key, k),
        forall|j: int| i <= j < s.len() ==> before(k, #[trigger] s[j].key),
    ensures
        eqv(p.key, k) ==> crate::wf_seq(s.insert(i, p)),
{
    if eqv(p.key, k) {
        assert forall|j: int| 0 <= j < i implies before(s[j], p) by {
            crate::order::lemma_before_eqv_trans(s[j].key, k, p.key);
        }
        assert forall|j: int| i <= j < s.len() implies before(p, s[j]) by {
            crate::order::lemma_eqv_before_trans(p.key, k, s[j].key);
        }
        lemma_insert_wf(s, i, p);
    }
}

impl<K: TotalOrder> VacantEntry<K> {
    /// Gets a reference to the key that would be used when inserting a
    /// pair through this entry.
    pub fn key(&self) -> (k: &K)
        ensures
            *k == self.spec_key(),
    {
        &self.key
    }

    /// Take ownership of the key, consuming the view without inserting.
    pub fn into_key(self) -> (k: K)
        ensures
            k == self.spec_key(),
    {
        self.key
    }

    /// Inserts a pair made from the key by the given constructor at the
    /// precomputed position, and returns a mutable reference to the
    /// pair. The set stays well formed exactly when the constructed
    /// pair keeps the key's position in the order — the key it carries
    /// is equal to the entry's key — and nothing written through the
    /// returned reference changes that.
    pub fn insert_with<V, F: FnOnce(K) -> KeyValuePair<K, V>>(
        self,
        set: &mut SmallOrdSet<KeyValuePair<K, V>>,
        f: F,
    ) -> (r: &mut KeyValuePair<K, V>)
        requires
            old(set).well_formed(),
            old(set)@.len() < usize::MAX,
            Entry::Vacant(self).valid_for(old(set)@),
            call_requires(f, (self.spec_key(),)),
        ensures
            call_ensures(f, (self.spec_key(),), *r),
            final(set)@ == old(set)@.insert(self.index(), *final(r)),
            eqv((*final(r)).key, self.spec_key()) ==> final(set).well_formed(),
    {
        let ghost s0 = set@;
        let ghost k0 = self.spec_key();
        let VacantEntry { idx, key } = self;
        let element = f(key);
        set.buf.insert_at(idx, element);
        let r = set.buf.get_mut(idx);
        proof {
            lemma_insert_wf_keyed(s0, idx as int, *final(r), k0);
            assert(s0.insert(idx as int, element).update(idx as int, *final(r)) =~= s0.insert(
                idx as int,
                *final(r),
            ));
        }
        r
    }

    /// Sets the value of the entry with the entry's key, inserting the
    /// pair at the precomputed position, and returns a mutable
    /// reference to the value.
    pub fn insert<V>(self, set: &mut SmallOrdSet<KeyValuePair<K, V>>, value: V) -> (v: &mut V)
        requires
            old(set).well_formed(),
            old(set)@.len() < usize::MAX,
            Entry::Vacant(self).valid_for(old(set)@),
        ensures
            final(set).well_formed(),
            *v == value,
            final(set)@ == old(set)@.insert(
                self.index(),
                KeyValuePair { key: self.spec_key(), value: *final(v) },
            ),
    {
        Entry::Vacant(self).or_insert(set, value)
    }
}

} // verus!
