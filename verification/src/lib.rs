//! An ordered-set container backed by a sorted, small-buffer-optimized
//! vector, together with a key-value layer that turns the set into an
//! ordered map.

mod buffer;
mod entry;
mod map;
mod order;

pub use entry::Entry;
pub use entry::OccupiedEntry;
pub use entry::VacantEntry;
pub use map::KeyValuePair;
pub use map::contains_key;
pub use map::lemma_contains_key_pair;
pub use order::TotalOrder;
pub use order::before;
pub use order::eqv;
pub use order::lemma_before_trans;
pub use order::lemma_eqv_trans;
pub use order::lemma_before_eqv_trans;
pub use order::lemma_eqv_before_trans;

pub use buffer::INLINE_CAPACITY;

use vstd::prelude::*;

use crate::buffer::Buffer;

verus! {

/// A sorted sequence holds no two elements in the wrong order and, in
/// particular, no two elements that compare equal.
pub open spec fn wf_seq<T: TotalOrder>(s: Seq<T>) -> bool {
    forall|i: int, j: int| 0 <= i < j < s.len() ==> before(s[i], s[j])
}

/// Some element of `s` compares equal to `x`.
pub open spec fn contains_eqv<T: TotalOrder>(s: Seq<T>, x: T) -> bool {
    exists|i: int| 0 <= i < s.len() && eqv(s[i], x)
}

/// The position in `s` where `x` sorts: the length of the longest prefix
/// of elements strictly before `x`.
pub open spec fn insertion_point<T: TotalOrder>(s: Seq<T>, x: T) -> int
    decreases s.len(),
{
    if s.len() == 0 {
        0
    } else if before(s[0], x) {
        1 + insertion_point(s.drop_first(), x)
    } else {
        0
    }
}

/// The set `s` with `x` added: unchanged when an element equal to `x` is
/// already present (the stored element wins), else `x` inserted at its
/// sorted position.
pub open spec fn set_insert<T: TotalOrder>(s: Seq<T>, x: T) -> Seq<T> {
    if contains_eqv(s, x) {
        s
    } else {
        s.insert(insertion_point(s, x), x)
    }
}

/// Every element of `add` folded into `s` by `set_insert`, first to
/// last. An element equal to one already stored is dropped, so of any
/// group of equal elements the first one encountered is the one kept.
pub open spec fn set_fold_insert<T: TotalOrder>(s: Seq<T>, add: Seq<T>) -> Seq<T>
    decreases add.len(),
{
    if add.len() == 0 {
        s
    } else {
        set_fold_insert(set_insert(s, add[0]), add.drop_first())
    }
}

/// A sequence whose elements all sort strictly before or strictly after
/// `x` holds no element equal to `x`.
pub proof fn lemma_sandwich_not_contains<T: TotalOrder>(s: Seq<T>, x: T, i: int)
    requires
        0 <= i <= s.len(),
        forall|j: int| 0 <= j < i ==> before(s[j], x),
        forall|j: int| i <= j < s.len() ==> before(x, s[j]),
    ensures
        !contains_eqv(s, x),
{
    assert forall|k: int| 0 <= k < s.len() implies !eqv(s[k], x) by {
        if k < i {
            assert(before(s[k], x));
        } else {
            assert(before(x, s[k]));
        }
    }
    if contains_eqv(s, x) {
        let k = choose|k: int| 0 <= k < s.len() && eqv(s[k], x);
        assert(false);
    }
}

/// In a strictly sorted sequence, the element at `i` is the only one
/// that compares equal to `x`.
pub proof fn lemma_wf_unique<T: TotalOrder>(s: Seq<T>, i: int, x: T)
    requires
        wf_seq(s),
        0 <= i < s.len(),
        eqv(s[i], x),
    ensures
        forall|k: int| 0 <= k < s.len() && k != i ==> !eqv(s[k], x),
{
    assert forall|k: int| 0 <= k < s.len() && k != i implies !eqv(s[k], x) by {
        if eqv(s[k], x) {
            if k < i {
                assert(before(s[k], s[i]));
                T::lemma_transitive(s[i], x, s[k]);
            } else {
                assert(before(s[i], s[k]));
                T::lemma_transitive(s[k], x, s[i]);
            }
        }
    }
}

/// Replacing an element by one that compares equal to it keeps the
/// sequence strictly sorted.
pub proof fn lemma_update_eqv_wf<T: TotalOrder>(s: Seq<T>, i: int, x: T)
    requires
        wf_seq(s),
        0 <= i < s.len(),
        eqv(s[i], x),
    ensures
        wf_seq(s.update(i, x)),
{
    let t = s.update(i, x);
    assert forall|p: int, q: int| 0 <= p < q < t.len() implies before(t[p], t[q]) by {
        if p == i {
            assert(before(s[p], s[q]));
            lemma_eqv_before_trans(x, s[i], s[q]);
        } else if q == i {
            assert(before(s[p], s[q]));
            lemma_before_eqv_trans(s[p], s[i], x);
        } else {
            assert(before(s[p], s[q]));
        }
    }
}

/// Removing an element keeps the sequence strictly sorted.
pub proof fn lemma_remove_wf<T: TotalOrder>(s: Seq<T>, i: int)
    requires
        wf_seq(s),
        0 <= i < s.len(),
    ensures
        wf_seq(s.remove(i)),
{
    let t = s.remove(i);
    assert forall|p: int, q: int| 0 <= p < q < t.len() implies before(t[p], t[q]) by {
        let p0: int = if p < i { p } else { p + 1 };
        let q0: int = if q < i { q } else { q + 1 };
        assert(t[p] == s[p0]);
        assert(t[q] == s[q0]);
        assert(before(s[p0], s[q0]));
    }
}

/// `x` inserted between a strictly smaller prefix and a strictly larger
/// suffix lands exactly at `insertion_point`, and no element of `s`
/// compares equal to it.
pub proof fn lemma_insertion_point_from_sandwich<T: TotalOrder>(s: Seq<T>, x: T, i: int)
    requires
        0 <= i <= s.len(),
        forall|j: int| 0 <= j < i ==> before(s[j], x),
        forall|j: int| i <= j < s.len() ==> before(x, s[j]),
    ensures
        insertion_point(s, x) == i,
        !contains_eqv(s, x),
    decreases s.len(),
{
    lemma_sandwich_not_contains(s, x, i);
    if s.len() > 0 {
        if i == 0 {
            assert(before(x, s[0]));
            assert(!before(s[0], x));
        } else {
            assert(before(s[0], x));
            let s1 = s.drop_first();
            assert forall|j: int| 0 <= j < i - 1 implies before(s1[j], x) by {
                assert(s1[j] == s[j + 1]);
                assert(before(s[j + 1], x));
            }
            assert forall|j: int| i - 1 <= j < s1.len() implies before(x, s1[j]) by {
                assert(s1[j] == s[j + 1]);
                assert(before(x, s[j + 1]));
            }
            lemma_insertion_point_from_sandwich(s1, x, i - 1);
        }
    }
}

/// Inserting `x` between a strictly smaller prefix and a strictly larger
/// suffix keeps the sequence strictly sorted.
pub proof fn lemma_insert_wf<T: TotalOrder>(s: Seq<T>, i: int, x: T)
    requires
        wf_seq(s),
        0 <= i <= s.len(),
        forall|j: int| 0 <= j < i ==> before(s[j], x),
        forall|j: int| i <= j < s.len() ==> before(x, s[j]),
    ensures
        wf_seq(s.insert(i, x)),
{
    let t = s.insert(i, x);
    assert forall|p: int, q: int| 0 <= p < q < t.len() implies before(t[p], t[q]) by {
        if p < i {
            assert(t[p] == s[p]);
        } else if p == i {
            assert(t[p] == x);
        } else {
            assert(t[p] == s[p - 1]);
        }
        if q < i {
            assert(t[q] == s[q]);
        } else if q == i {
            assert(t[q] == x);
        } else {
            assert(t[q] == s[q - 1]);
        }
    }
}

/// In a strictly sorted sequence, `insertion_point` splits the sequence
/// into a prefix strictly before `x` and a suffix not before `x`.
pub proof fn lemma_insertion_point_sandwich<T: TotalOrder>(s: Seq<T>, x: T)
    requires
        wf_seq(s),
    ensures
        0 <= insertion_point(s, x) <= s.len(),
        forall|j: int| 0 <= j < insertion_point(s, x) ==> before(#[trigger] s[j], x),
        forall|j: int| insertion_point(s, x) <= j < s.len() ==> !before(#[trigger] s[j], x),
    decreases s.len(),
{
    let i = insertion_point(s, x);
    if s.len() > 0 {
        let s1 = s.drop_first();
        assert forall|p: int, q: int| 0 <= p < q < s1.len() implies before(s1[p], s1[q]) by {
            assert(before(s[p + 1], s[q + 1]));
        }
        lemma_insertion_point_sandwich(s1, x);
        if before(s[0], x) {
            let i1 = insertion_point(s1, x);
            assert(i == 1 + i1);
            assert forall|j: int| 0 <= j < i implies before(#[trigger] s[j], x) by {
                if j > 0 {
                    assert(before(s1[j - 1], x));
                }
            }
            assert forall|j: int| i <= j < s.len() implies !before(#[trigger] s[j], x) by {
                assert(!before(s1[j - 1], x));
            }
        } else {
            assert(i == 0);
            assert forall|j: int| 0 <= j < s.len() implies !before(#[trigger] s[j], x) by {
                if j > 0 && before(s[j], x) {
                    assert(before(s[0], s[j]));
                    lemma_before_trans(s[0], s[j], x);
                }
            }
        }
    }
}

/// What `set_insert` does to a strictly sorted sequence: the result is
/// strictly sorted, holds an element equal to `x`, and holds exactly
/// the elements of `s` plus, when nothing in `s` equals `x`, the
/// element `x` itself.
pub proof fn lemma_set_insert_props<T: TotalOrder>(s: Seq<T>, x: T)
    requires
        wf_seq(s),
    ensures
        wf_seq(set_insert(s, x)),
        contains_eqv(set_insert(s, x), x),
        forall|y: T| contains_eqv(set_insert(s, x), y) <==> contains_eqv(s, y) || eqv(x, y),
        forall|i: int|
            0 <= i < set_insert(s, x).len() ==> s.contains(#[trigger] set_insert(s, x)[i])
                || set_insert(s, x)[i] == x,
{
    let t = set_insert(s, x);
    T::lemma_total(x, x);
    if contains_eqv(s, x) {
        let k = choose|k: int| 0 <= k < s.len() && eqv(s[k], x);
        assert forall|y: T| contains_eqv(s, y) || eqv(x, y) implies contains_eqv(t, y) by {
            if !contains_eqv(s, y) {
                lemma_eqv_trans(s[k], x, y);
                assert(contains_eqv(s, y));
            }
        }
        assert forall|i: int| 0 <= i < t.len() implies s.contains(#[trigger] t[i]) || t[i] == x by {
            assert(t[i] == s[i]);
            assert(s.contains(s[i]));
        }
    } else {
        let i = insertion_point(s, x);
        lemma_insertion_point_sandwich(s, x);
        assert forall|j: int| i <= j < s.len() implies before(x, #[trigger] s[j]) by {
            T::lemma_total(s[j], x);
            assert(!eqv(s[j], x));
        }
        lemma_insert_wf(s, i, x);
        assert(t == s.insert(i, x));
        assert(t[i] == x);
        assert(contains_eqv(t, x));
        assert forall|y: T| contains_eqv(t, y) implies contains_eqv(s, y) || eqv(x, y) by {
            let k = choose|k: int| 0 <= k < t.len() && eqv(t[k], y);
            if k < i {
                assert(t[k] == s[k]);
                assert(contains_eqv(s, y));
            } else if k > i {
                assert(t[k] == s[k - 1]);
                assert(eqv(s[k - 1], y));
                assert(contains_eqv(s, y));
            }
        }
        assert forall|y: T| contains_eqv(s, y) || eqv(x, y) implies contains_eqv(t, y) by {
            if contains_eqv(s, y) {
                let k = choose|k: int| 0 <= k < s.len() && eqv(s[k], y);
                if k < i {
                    assert(t[k] == s[k]);
                    assert(eqv(t[k], y));
                    assert(contains_eqv(t, y));
                } else {
                    assert(t[k + 1] == s[k]);
                    assert(eqv(t[k + 1], y));
                    assert(contains_eqv(t, y));
                }
            } else {
                assert(eqv(t[i], y));
                assert(contains_eqv(t, y));
            }
        }
        assert forall|p: int| 0 <= p < t.len() implies s.contains(#[trigger] t[p]) || t[p] == x by {
            if p < i {
                assert(t[p] == s[p]);
                assert(s.contains(s[p]));
            } else if p > i {
                assert(t[p] == s[p - 1]);
                assert(s.contains(s[p - 1]));
            }
        }
    }
}

/// A non-empty sequence holds an element equal to `y` exactly when its
/// first element is equal to `y` or the rest holds one.
pub proof fn lemma_contains_eqv_unfold<T: TotalOrder>(s: Seq<T>, y: T)
    requires
        s.len() > 0,
    ensures
        contains_eqv(s, y) <==> (eqv(s[0], y) || contains_eqv(s.drop_first(), y)),
{
    let s1 = s.drop_first();
    if contains_eqv(s, y) {
        let k = choose|k: int| 0 <= k < s.len() && eqv(s[k], y);
        if k > 0 {
            assert(s1[k - 1] == s[k]);
            assert(eqv(s1[k - 1], y));
            assert(contains_eqv(s1, y));
        }
    }
    if eqv(s[0], y) {
        assert(contains_eqv(s, y));
    }
    if contains_eqv(s1, y) {
        let k = choose|k: int| 0 <= k < s1.len() && eqv(s1[k], y);
        assert(s[k + 1] == s1[k]);
        assert(eqv(s[k + 1], y));
        assert(contains_eqv(s, y));
    }
}

/// What folding a whole sequence into a strictly sorted set does: the
/// result is strictly sorted and holds an element equal to `y` exactly
/// when `s` or `add` held one — the round-trip law for bulk
/// construction.
pub proof fn lemma_set_fold_insert_props<T: TotalOrder>(s: Seq<T>, add: Seq<T>)
    requires
        wf_seq(s),
    ensures
        wf_seq(set_fold_insert(s, add)),
        forall|y: T|
            contains_eqv(set_fold_insert(s, add), y) <==> (contains_eqv(s, y) || contains_eqv(
                add,
                y,
            )),
        forall|i: int|
            0 <= i < set_fold_insert(s, add).len() ==> s.contains(
                #[trigger] set_fold_insert(s, add)[i],
            ) || add.contains(set_fold_insert(s, add)[i]),
    decreases add.len(),
{
    let t = set_fold_insert(s, add);
    if add.len() == 0 {
        assert forall|y: T| !contains_eqv(add, y) by {
            if contains_eqv(add, y) {
                let k = choose|k: int| 0 <= k < add.len() && eqv(add[k], y);
            }
        }
        assert forall|i: int| 0 <= i < t.len() implies s.contains(#[trigger] t[i]) || add.contains(
            t[i],
        ) by {
            assert(t[i] == s[i]);
            assert(s.contains(s[i]));
        }
    } else {
        let s1 = set_insert(s, add[0]);
        let a1 = add.drop_first();
        lemma_set_insert_props(s, add[0]);
        lemma_set_fold_insert_props(s1, a1);
        assert forall|y: T|
            contains_eqv(set_fold_insert(s, add), y) <==> (contains_eqv(s, y) || contains_eqv(
                add,
                y,
            )) by {
            lemma_contains_eqv_unfold(add, y);
        }
        assert forall|i: int| 0 <= i < t.len() implies s.contains(#[trigger] t[i]) || add.contains(
            t[i],
        ) by {
            assert(s1.contains(t[i]) || a1.contains(t[i]));
            if s1.contains(t[i]) {
                let k = choose|k: int| 0 <= k < s1.len() && s1[k] == t[i];
                assert(s.contains(s1[k]) || s1[k] == add[0]);
                if s1[k] == add[0] {
                    assert(add[0] == t[i]);
                    assert(add.contains(t[i]));
                }
            } else {
                let k = choose|k: int| 0 <= k < a1.len() && a1[k] == t[i];
                assert(add[k + 1] == a1[k]);
                assert(add.contains(t[i]));
            }
        }
    }
}

/// Read in ascending order, a well-formed set is strictly increasing by
/// the element ordering, and holds no two elements that compare equal.
pub proof fn lemma_wf_sorted_unique<T: TotalOrder>(s: Seq<T>)
    requires
        wf_seq(s),
    ensures
        forall|i: int, j: int| 0 <= i < j < s.len() ==> before(s[i], s[j]),
        forall|i: int, j: int|
            0 <= i < s.len() && 0 <= j < s.len() && i != j ==> !eqv(
                #[trigger] s[i],
                #[trigger] s[j],
            ),
{
    assert forall|i: int, j: int|
        0 <= i < s.len() && 0 <= j < s.len() && i != j implies !eqv(
        #[trigger] s[i],
        #[trigger] s[j],
    ) by {
        if i < j {
            assert(before(s[i], s[j]));
        } else {
            assert(before(s[j], s[i]));
        }
    }
}

/// Adding `x` to a set that already holds an element equal to `x`
/// changes nothing; so `set_insert` — and with it `entry` followed by
/// `or_insert` with the same key and default — is idempotent.
pub proof fn lemma_set_insert_idempotent<T: TotalOrder>(s: Seq<T>, x: T)
    requires
        wf_seq(s),
    ensures
        set_insert(set_insert(s, x), x) == set_insert(s, x),
{
    lemma_set_insert_props(s, x);
}

/// A set represented by a sorted small-buffer vector.
#[verifier::reject_recursive_types(T)]
pub struct SmallOrdSet<T: TotalOrder> {
    buf: Buffer<T>,
}

impl<T: TotalOrder> View for SmallOrdSet<T> {
    type V = Seq<T>;

    closed spec fn view(&self) -> Seq<T> {
        self.buf@
    }
}

impl<T: TotalOrder> SmallOrdSet<T> {
    /// The set invariant: the backing buffer is sorted in strictly
    /// ascending order, so it also holds no duplicates.
    pub open spec fn well_formed(self) -> bool {
        wf_seq(self@)
    }

    /// Make a new, empty, `SmallOrdSet`.
    pub fn new() -> (s: Self)
        ensures
            s@ == Seq::<T>::empty(),
            s.well_formed(),
    {
        SmallOrdSet { buf: Buffer::new() }
    }

    /// The number of elements in the set.
    pub fn len(&self) -> (n: usize)
        ensures
            n == self@.len(),
    {
        self.buf.len()
    }

    /// Returns `true` if the set is empty.
    pub fn is_empty(&self) -> (r: bool)
        ensures
            r == (self@.len() == 0),
    {
        self.buf.len() == 0
    }

    /// Binary search over the sorted buffer: `Ok(i)` when the element at
    /// `i` compares equal to `element`, else `Err(i)` with the
    /// sort-preserving insertion index. Every lookup and mutation builds
    /// on this primitive.
    fn find(&self, element: &T) -> (r: Result<usize, usize>)
        requires
            self.well_formed(),
        ensures
            match r {
                Ok(i) => 0 <= i < self@.len() && eqv(self@[i as int], *element),
                Err(i) => {
                    &&& i <= self@.len()
                    &&& forall|j: int| 0 <= j < i ==> before(self@[j], *element)
                    &&& forall|j: int| i <= j < self@.len() ==> before(*element, self@[j])
                },
            },
    {
        let len = self.buf.len();
        let mut lo: usize = 0;
        let mut hi: usize = len;
        while lo < hi
            invariant
                self.well_formed(),
                lo <= hi <= self@.len(),
                forall|j: int| 0 <= j < lo ==> before(self@[j], *element),
                forall|j: int| hi <= j < self@.len() ==> (*element).leq(self@[j]),
            decreases hi - lo,
        {
            let mid = lo + (hi - lo) / 2;
            let probe = self.buf.get(mid);
            if element.leq_exec(probe) {
                proof {
                    assert forall|j: int| mid <= j < self@.len() implies (*element).leq(
                        self@[j],
                    ) by {
                        if j > mid {
                            assert(before(self@[mid as int], self@[j]));
                            T::lemma_transitive(*element, self@[mid as int], self@[j]);
                        }
                    }
                }
                hi = mid;
            } else {
                proof {
                    T::lemma_total(*element, self@[mid as int]);
                    assert(before(self@[mid as int], *element));
                    assert forall|j: int| 0 <= j < mid + 1 implies before(self@[j], *element) by {
                        if j < mid {
                            assert(before(self@[j], self@[mid as int]));
                            lemma_before_trans(self@[j], self@[mid as int], *element);
                        }
                    }
                }
                lo = mid + 1;
            }
        }
        if lo < len {
            let probe = self.buf.get(lo);
            if probe.leq_exec(element) {
                Ok(lo)
            } else {
                proof {
                    assert forall|j: int| lo <= j < self@.len() implies before(
                        *element,
                        self@[j],
                    ) by {
                        if j > lo {
                            assert(before(self@[lo as int], self@[j]));
                            lemma_before_trans(*element, self@[lo as int], self@[j]);
                        }
                    }
                }
                Err(lo)
            }
        } else {
            Err(lo)
        }
    }

    /// Adds an element to the set.
    ///
    /// If the set did not have an element equal to this one, `true` is
    /// returned and the element is placed at its sorted position. If it
    /// did, `false` is returned and the set is left exactly as it was:
    /// the stored element is retained, not overwritten.
    pub fn insert(&mut self, element: T) -> (r: bool)
        requires
            old(self).well_formed(),
            old(self)@.len() < usize::MAX,
        ensures
            final(self).well_formed(),
            final(self)@ == set_insert(old(self)@, element),
            r == !contains_eqv(old(self)@, element),
            r ==> final(self)@.len() == old(self)@.len() + 1,
            !r ==> final(self)@ == old(self)@,
            contains_eqv(final(self)@, element),
    {
        match self.find(&element) {
            Ok(i) => {
                proof {
                    assert(eqv(self@[i as int], element));
                    assert(contains_eqv(self@, element));
                }
                false
            },
            Err(idx) => {
                proof {
                    lemma_insertion_point_from_sandwich(self@, element, idx as int);
                    lemma_insert_wf(self@, idx as int, element);
                    T::lemma_total(element, element);
                }
                let ghost s0 = self@;
                self.buf.insert_at(idx, element);
                proof {
                    assert(self@ == s0.insert(idx as int, element));
                    assert(self@[idx as int] == element);
                    assert(eqv(self@[idx as int], element));
                    assert(contains_eqv(self@, element));
                }
                true
            },
        }
    }

    /// Adds an element to the set, replacing the existing element, if
    /// any, that is equal to the given one. Returns the replaced
    /// element; afterwards the given element, not the old one, is the
    /// one stored.
    pub fn replace(&mut self, element: T) -> (r: Option<T>)
        requires
            old(self).well_formed(),
            old(self)@.len() < usize::MAX,
        ensures
            final(self).well_formed(),
            contains_eqv(final(self)@, element),
            exists|i: int| 0 <= i < final(self)@.len() && final(self)@[i] == element,
            match r {
                Some(prev) => {
                    &&& eqv(prev, element)
                    &&& contains_eqv(old(self)@, element)
                    &&& exists|i: int|
                        0 <= i < old(self)@.len() && prev == old(self)@[i] && final(self)@ == old(self)@.update(i, element)
                },
                None => {
                    &&& !contains_eqv(old(self)@, element)
                    &&& final(self)@ == set_insert(old(self)@, element)
                    &&& final(self)@.len() == old(self)@.len() + 1
                },
            },
    {
        match self.find(&element) {
            Ok(idx) => {
                proof {
                    assert(eqv(self@[idx as int], element));
                    assert(contains_eqv(self@, element));
                    lemma_update_eqv_wf(self@, idx as int, element);
                    T::lemma_total(element, element);
                }
                let ghost s0 = self@;
                let prev = self.buf.remove_at(idx);
                self.buf.insert_at(idx, element);
                proof {
                    assert(self@ =~= s0.update(idx as int, element));
                    assert(self@[idx as int] == element);
                    assert(eqv(self@[idx as int], element));
                    assert(contains_eqv(self@, element));
                }
                Some(prev)
            },
            Err(idx) => {
                proof {
                    lemma_insertion_point_from_sandwich(self@, element, idx as int);
                    lemma_insert_wf(self@, idx as int, element);
                    T::lemma_total(element, element);
                }
                let ghost s0 = self@;
                self.buf.insert_at(idx, element);
                proof {
                    assert(self@[idx as int] == element);
                    assert(eqv(self@[idx as int], element));
                    assert(contains_eqv(self@, element));
                }
                None
            },
        }
    }

    /// Removes and returns the element in the set, if any, that is equal
    /// to the given one.
    pub fn remove(&mut self, element: &T) -> (r: Option<T>)
        requires
            old(self).well_formed(),
        ensures
            final(self).well_formed(),
            !contains_eqv(final(self)@, *element),
            match r {
                Some(x) => {
                    &&& eqv(x, *element)
                    &&& final(self)@.len() + 1 == old(self)@.len()
                    &&& exists|i: int|
                        0 <= i < old(self)@.len() && x == old(self)@[i] && final(self)@ == old(self)@.remove(i)
                },
                None => final(self)@ == old(self)@ && !contains_eqv(old(self)@, *element),
            },
    {
        match self.find(element) {
            Ok(idx) => {
                proof {
                    assert(eqv(self@[idx as int], *element));
                    lemma_remove_wf(self@, idx as int);
                    lemma_wf_unique(self@, idx as int, *element);
                }
                let ghost s0 = self@;
                let x = self.buf.remove_at(idx);
                proof {
                    assert forall|k: int| 0 <= k < self@.len() implies !eqv(self@[k], *element) by {
                        if k < idx as int {
                            assert(self@[k] == s0[k]);
                        } else {
                            assert(self@[k] == s0[k + 1]);
                        }
                    }
                    if contains_eqv(self@, *element) {
                        let k = choose|k: int| 0 <= k < self@.len() && eqv(self@[k], *element);
                        assert(false);
                    }
                }
                Some(x)
            },
            Err(idx) => {
                proof {
                    lemma_sandwich_not_contains(self@, *element, idx as int);
                }
                None
            },
        }
    }

    /// Returns `true` if the set contains an element equal to the given
    /// one.
    pub fn contains(&self, element: &T) -> (r: bool)
        requires
            self.well_formed(),
        ensures
            r == contains_eqv(self@, *element),
    {
        match self.find(element) {
            Ok(i) => {
                proof {
                    assert(eqv(self@[i as int], *element));
                    assert(contains_eqv(self@, *element));
                }
                true
            },
            Err(i) => {
                proof {
                    lemma_sandwich_not_contains(self@, *element, i as int);
                }
                false
            },
        }
    }

    /// Returns a reference to the element in the set, if any, that is
    /// equal to the given one.
    pub fn get(&self, element: &T) -> (r: Option<&T>)
        requires
            self.well_formed(),
        ensures
            match r {
                Some(x) => self@.contains(*x) && eqv(*x, *element),
                None => !contains_eqv(self@, *element),
            },
    {
        match self.find(element) {
            Ok(idx) => {
                let x = self.buf.get(idx);
                proof {
                    assert(self@[idx as int] == *x);
                    assert(self@.contains(*x));
                    T::lemma_total(*x, *element);
                }
                Some(x)
            },
            Err(idx) => {
                proof {
                    lemma_sandwich_not_contains(self@, *element, idx as int);
                }
                None
            },
        }
    }

    /// Returns a mutable reference to the element in the set, if any,
    /// that is equal to the given one. It is the caller's obligation not
    /// to mutate the element in a way that changes its position in the
    /// order: nothing here promises that the set is still well formed
    /// afterwards.
    pub fn get_mut(&mut self, element: &T) -> (r: Option<&mut T>)
        requires
            old(self).well_formed(),
        ensures
            match r {
                Some(x) => exists|i: int|
                    0 <= i < old(self)@.len() && *x == old(self)@[i] && eqv(*x, *element) && final(self)@ == old(self)@.update(i, *final(x)),
                None => final(self)@ == old(self)@ && !contains_eqv(old(self)@, *element),
            },
    {
        match self.find(element) {
            Ok(idx) => {
                proof {
                    assert(eqv(self@[idx as int], *element));
                }
                let x = self.buf.get_mut(idx);
                Some(x)
            },
            Err(idx) => {
                proof {
                    lemma_sandwich_not_contains(self@, *element, idx as int);
                }
                None
            },
        }
    }

    /// Remove all elements from the set.
    pub fn clear(&mut self)
        ensures
            final(self)@ == Seq::<T>::empty(),
            final(self).well_formed(),
    {
        self.buf.clear()
    }

    /// The number of elements the set can hold without reallocating;
    /// never below its length.
    pub fn capacity(&self) -> (n: usize)
        ensures
            n >= self@.len(),
    {
        self.buf.capacity()
    }

    /// The maximum number of elements this set can hold inline, before
    /// its storage moves to the heap. A set of zero-sized elements
    /// never spills and reports the all-ones capacity instead.
    pub fn inline_size(&self) -> (n: usize)
        ensures
            vstd::layout::size_of::<T>() > 0 ==> n == INLINE_CAPACITY,
            vstd::layout::size_of::<T>() == 0 ==> n == usize::MAX,
    {
        self.buf.inline_size()
    }

    /// Re-allocate to set the capacity to `max(new_cap, inline_size())`.
    /// A target below the current length is a programmer error and is
    /// excluded here.
    pub fn grow(&mut self, new_cap: usize)
        requires
            new_cap >= old(self)@.len(),
        ensures
            final(self)@ == old(self)@,
            old(self).well_formed() ==> final(self).well_formed(),
    {
        self.buf.grow(new_cap)
    }

    /// Reserve capacity for `additional` more elements. May reserve more
    /// space to avoid frequent reallocations.
    pub fn reserve(&mut self, additional: usize)
        requires
            old(self)@.len() + additional <= usize::MAX,
        ensures
            final(self)@ == old(self)@,
            old(self).well_formed() ==> final(self).well_formed(),
    {
        self.buf.reserve(additional)
    }

    /// Reserve the minimum capacity for `additional` more elements.
    pub fn reserve_exact(&mut self, additional: usize)
        requires
            old(self)@.len() + additional <= usize::MAX,
        ensures
            final(self)@ == old(self)@,
            old(self).well_formed() ==> final(self).well_formed(),
    {
        self.buf.reserve_exact(additional)
    }

    /// Get a slice containing the whole set in sorted order.
    pub fn as_slice(&self) -> (r: &[T])
        ensures
            r@ == self@,
    {
        self.buf.as_slice()
    }

    /// A reference to the element at position `i` of the sorted order.
    pub fn get_at(&self, i: usize) -> (r: &T)
        requires
            i < self@.len(),
        ensures
            *r == self@[i as int],
    {
        self.buf.get(i)
    }

    /// Convert the set into a `Vec` holding its elements in sorted
    /// order.
    pub fn into_vec(self) -> (r: Vec<T>)
        ensures
            r@ == self@,
    {
        self.buf.into_vec()
    }

    /// Construct a `SmallOrdSet` from a buffer that the caller asserts
    /// is already sorted and free of duplicates. This is not
    /// re-validated: on a buffer that breaks the invariant every later
    /// operation stays memory safe, but its results are unspecified, and
    /// here unprovable, since `well_formed` will not hold.
    pub fn from_vec_unchecked(vec: Vec<T>) -> (s: Self)
        ensures
            s@ == vec@,
    {
        SmallOrdSet { buf: Buffer::from_vec(vec) }
    }

    /// Returns a reference to the first element in the set, if any. This
    /// element is always the minimum of the set.
    pub fn first(&self) -> (r: Option<&T>)
        requires
            self.well_formed(),
        ensures
            match r {
                None => self@.len() == 0,
                Some(x) => {
                    &&& self@.len() > 0
                    &&& *x == self@[0]
                    &&& forall|j: int| 0 <= j < self@.len() ==> (*x).leq(#[trigger] self@[j])
                },
            },
    {
        if self.buf.len() == 0 {
            None
        } else {
            let x = self.buf.get(0);
            proof {
                assert forall|j: int| 0 <= j < self@.len() implies (*x).leq(#[trigger] self@[j]) by {
                    if j == 0 {
                        T::lemma_total(self@[0], self@[0]);
                    } else {
                        assert(before(self@[0], self@[j]));
                    }
                }
            }
            Some(x)
        }
    }

    /// Returns a reference to the last element in the set, if any. This
    /// element is always the maximum of the set.
    pub fn last(&self) -> (r: Option<&T>)
        requires
            self.well_formed(),
        ensures
            match r {
                None => self@.len() == 0,
                Some(x) => {
                    &&& self@.len() > 0
                    &&& *x == self@[self@.len() - 1]
                    &&& forall|j: int| 0 <= j < self@.len() ==> (#[trigger] self@[j]).leq(*x)
                },
            },
    {
        let len = self.buf.len();
        if len == 0 {
            None
        } else {
            let x = self.buf.get(len - 1);
            proof {
                let last: int = self@.len() - 1;
                assert forall|j: int| 0 <= j < self@.len() implies (#[trigger] self@[j]).leq(*x) by {
                    if j == last {
                        T::lemma_total(self@[last], self@[last]);
                    } else {
                        assert(before(self@[j], self@[last]));
                    }
                }
            }
            Some(x)
        }
    }

    /// Appends all elements of `other` to the set, one sorted insertion
    /// at a time, first to last. An element equal to one already stored
    /// is dropped, so of equal elements the first encountered wins —
    /// the same deterministic tie-break a stable sort followed by
    /// adjacent-duplicate removal would give.
    pub fn extend(&mut self, other: Vec<T>)
        requires
            old(self).well_formed(),
            old(self)@.len() + other@.len() <= usize::MAX,
        ensures
            final(self).well_formed(),
            final(self)@ == set_fold_insert(old(self)@, other@),
            forall|y: T|
                contains_eqv(final(self)@, y) <==> (contains_eqv(old(self)@, y) || contains_eqv(
                    other@,
                    y,
                )),
    {
        proof {
            lemma_set_fold_insert_props(self@, other@);
        }
        let ghost s0 = self@;
        let ghost a0 = other@;
        let mut rest = other;
        while rest.len() > 0
            invariant
                self.well_formed(),
                self@.len() + rest@.len() <= usize::MAX,
                set_fold_insert(s0, a0) == set_fold_insert(self@, rest@),
            decreases rest@.len(),
        {
            let ghost spre = self@;
            let ghost rpre = rest@;
            let x = rest.remove(0);
            proof {
                assert(rpre[0] == x);
                assert(rest@ =~= rpre.drop_first());
            }
            self.insert(x);
            proof {
                assert(set_fold_insert(spre, rpre) == set_fold_insert(
                    set_insert(spre, x),
                    rpre.drop_first(),
                ));
            }
        }
        proof {
            assert(rest@.len() == 0);
            assert(set_fold_insert(self@, rest@) == self@);
        }
    }

    /// Construct a `SmallOrdSet` from a buffer in any order, possibly
    /// holding duplicates. The result holds exactly one element for
    /// each group of equal elements of `vec` — the first encountered —
    /// in sorted order.
    pub fn from_vec(vec: Vec<T>) -> (s: Self)
        ensures
            s.well_formed(),
            s@ == set_fold_insert(Seq::<T>::empty(), vec@),
            forall|y: T| contains_eqv(s@, y) <==> contains_eqv(vec@, y),
            forall|i: int| 0 <= i < s@.len() ==> vec@.contains(#[trigger] s@[i]),
    {
        proof {
            vstd::std_specs::vec::axiom_spec_len(&vec);
            lemma_set_fold_insert_props(Seq::<T>::empty(), vec@);
        }
        let mut s = Self::new();
        s.extend(vec);
        s
    }

    /// Construct a `SmallOrdSet` from a plain buffer of elements; the
    /// buffer is sorted and duplicates are dropped as in `from_vec`.
    pub fn from_buf(buf: Vec<T>) -> (s: Self)
        ensures
            s.well_formed(),
            s@ == set_fold_insert(Seq::<T>::empty(), buf@),
            forall|y: T| contains_eqv(s@, y) <==> contains_eqv(buf@, y),
            forall|i: int| 0 <= i < s@.len() ==> buf@.contains(#[trigger] s@[i]),
    {
        Self::from_vec(buf)
    }

    /// Removes the elements at positions `[start, end)` of the sorted
    /// order and returns them, in order. The range is removed eagerly.
    /// An inverted or out-of-bounds range is a programmer error and is
    /// excluded here.
    pub fn drain(&mut self, start: usize, end: usize) -> (r: Vec<T>)
        requires
            start <= end,
            end <= old(self)@.len(),
        ensures
            r@ == old(self)@.subrange(start as int, end as int),
            final(self)@ == old(self)@.subrange(0, start as int) + old(self)@.subrange(
                end as int,
                old(self)@.len() as int,
            ),
            old(self).well_formed() ==> final(self).well_formed(),
            old(self).well_formed() ==> wf_seq(r@),
    {
        proof {
            if self.well_formed() {
                let s = self@;
                let t = s.subrange(0, start as int) + s.subrange(end as int, s.len() as int);
                assert forall|p: int, q: int| 0 <= p < q < t.len() implies before(t[p], t[q]) by {
                    let p0: int = if p < start { p } else { p + (end - start) };
                    let q0: int = if q < start { q } else { q + (end - start) };
                    assert(t[p] == s[p0]);
                    assert(t[q] == s[q0]);
                    assert(before(s[p0], s[q0]));
                }
                let d = s.subrange(start as int, end as int);
                assert forall|p: int, q: int| 0 <= p < q < d.len() implies before(d[p], d[q]) by {
                    assert(d[p] == s[p + start]);
                    assert(d[q] == s[q + start]);
                    assert(before(s[p + start], s[q + start]));
                }
            }
        }
        self.buf.drain(start, end)
    }

    /// Moves all elements from `other` into `self`, leaving `other`
    /// empty. Incoming elements equal to one already stored are
    /// dropped: the element of `self` wins.
    pub fn append(&mut self, other: &mut Self)
        requires
            old(self).well_formed(),
            old(self)@.len() + old(other)@.len() <= usize::MAX,
        ensures
            final(self).well_formed(),
            final(self)@ == set_fold_insert(old(self)@, old(other)@),
            final(other)@ == Seq::<T>::empty(),
            forall|y: T|
                contains_eqv(final(self)@, y) <==> (contains_eqv(old(self)@, y) || contains_eqv(
                    old(other)@,
                    y,
                )),
    {
        proof {
            lemma_set_fold_insert_props(self@, other@);
        }
        let n = other.buf.len();
        let v = other.buf.drain(0, n);
        proof {
            assert(v@ =~= old(other)@);
            assert(other@ =~= Seq::<T>::empty());
        }
        self.extend(v);
    }

    /// Retains only the elements for which the predicate returned
    /// `true`, preserving their order. Every survivor was already
    /// stored; every dropped element was answered `false`.
    pub fn retain<F: Fn(&T) -> bool>(&mut self, f: F)
        requires
            old(self).well_formed(),
            forall|i: int| 0 <= i < old(self)@.len() ==> call_requires(f, (&old(self)@[i],)),
        ensures
            final(self).well_formed(),
            forall|j: int|
                0 <= j < final(self)@.len() ==> old(self)@.contains(#[trigger] final(self)@[j])
                    && call_ensures(f, (&final(self)@[j],), true),
            forall|j: int|
                0 <= j < old(self)@.len() ==> final(self)@.contains(#[trigger] old(self)@[j])
                    || call_ensures(f, (&old(self)@[j],), false),
    {
        let ghost s0 = self@;
        let ghost mut g: int = 0;
        let mut i: usize = 0;
        while i < self.buf.len()
            invariant
                self.well_formed(),
                i <= self@.len(),
                0 <= g <= s0.len(),
                self@.len() - i == s0.len() - g,
                forall|j: int| i <= j < self@.len() ==> #[trigger] self@[j] == s0[j - i + g],
                forall|j: int| 0 <= j < s0.len() ==> call_requires(f, (&s0[j],)),
                forall|j: int|
                    0 <= j < i ==> s0.contains(#[trigger] self@[j]) && call_ensures(
                        f,
                        (&self@[j],),
                        true,
                    ),
                forall|j: int|
                    0 <= j < g ==> self@.subrange(0, i as int).contains(#[trigger] s0[j])
                        || call_ensures(f, (&s0[j],), false),
            decreases s0.len() - g,
        {
            proof {
                assert(self@[i as int] == s0[g]);
            }
            let x = self.buf.get(i);
            let keep = f(x);
            let ghost spre = self@;
            if keep {
                proof {
                    assert(s0.contains(spre[i as int])) by {
                        assert(s0[g] == spre[i as int]);
                    }
                    assert(spre.subrange(0, i as int + 1)[i as int] == s0[g]);
                    assert(spre.subrange(0, i as int + 1).contains(s0[g]));
                    assert forall|j: int|
                        0 <= j < g implies spre.subrange(0, i as int + 1).contains(
                        #[trigger] s0[j],
                    ) || call_ensures(f, (&s0[j],), false) by {
                        let pre = spre.subrange(0, i as int);
                        if pre.contains(s0[j]) {
                            let k = choose|k: int| 0 <= k < pre.len() && pre[k] == s0[j];
                            assert(spre.subrange(0, i as int + 1)[k] == s0[j]);
                            assert(spre.subrange(0, i as int + 1).contains(s0[j]));
                        }
                    }
                    g = g + 1;
                }
                i = i + 1;
            } else {
                let _ = self.buf.remove_at(i);
                proof {
                    lemma_remove_wf(spre, i as int);
                    assert forall|j: int| 0 <= j < i implies #[trigger] self@[j] == spre[j] by {}
                    assert(self@.subrange(0, i as int) =~= spre.subrange(0, i as int));
                    assert forall|j: int|
                        i <= j < self@.len() implies #[trigger] self@[j] == s0[j - i + g + 1] by {
                        assert(self@[j] == spre[j + 1]);
                    }
                    g = g + 1;
                }
            }
        }
        proof {
            assert(self@.subrange(0, i as int) =~= self@);
            assert forall|j: int|
                0 <= j < s0.len() implies self@.contains(#[trigger] s0[j]) || call_ensures(
                f,
                (&s0[j],),
                false,
            ) by {}
        }
    }
}

impl<T: TotalOrder> Default for SmallOrdSet<T> {
    /// The empty set.
    fn default() -> (s: Self)
        ensures
            s@ == Seq::<T>::empty(),
            s.well_formed(),
    {
        Self::new()
    }
}

} // verus!
