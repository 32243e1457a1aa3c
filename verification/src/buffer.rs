//! The backing buffer: a growable vector with inline storage for a few
//! elements, backed by `smallvec::SmallVec`.
//!
//! This module is the trust boundary towards the `smallvec` crate. The
//! `Buffer` type pairs the vector with a ghost sequence mirroring the
//! elements it holds; every operation is a thin wrapper around one
//! `SmallVec` method whose contract states, over that sequence, what the
//! method is documented to do. Nothing outside this module constructs a
//! `Buffer` directly, so the correspondence between the vector and the
//! ghost sequence is maintained by these wrappers alone.

use vstd::prelude::*;

verus! {

/// The number of elements a buffer can hold before it moves its storage
/// to the heap.
pub const INLINE_CAPACITY: usize = 8;

/// The `SmallVec` itself, opaque to the verifier: `SmallVec`'s `Array`
/// bound cannot be stated in a verified signature, so the vector is held
/// behind this struct instead.
#[verifier::external_body]
#[verifier::reject_recursive_types(T)]
struct RawBuf<T> {
    vec: smallvec::SmallVec<[T; INLINE_CAPACITY]>,
}

/// A growable vector of `T` with inline room for `INLINE_CAPACITY`
/// elements. `contents` mirrors, in ghost state, the elements stored in
/// `raw`, in order.
#[verifier::reject_recursive_types(T)]
pub struct Buffer<T> {
    raw: RawBuf<T>,
    contents: Ghost<Seq<T>>,
}

impl<T> View for Buffer<T> {
    type V = Seq<T>;

    closed spec fn view(&self) -> Seq<T> {
        self.contents@
    }
}

impl<T> Buffer<T> {
    /// Relies on `smallvec::SmallVec::new`: makes an empty vector.
    #[verifier::external_body]
    fn raw_empty() -> RawBuf<T> {
        RawBuf { vec: smallvec::SmallVec::new() }
    }

    /// Relies on `smallvec::SmallVec::from_vec`: takes over the elements
    /// of `v`, in order.
    #[verifier::external_body]
    fn raw_from_vec(v: Vec<T>) -> RawBuf<T> {
        RawBuf { vec: smallvec::SmallVec::from_vec(v) }
    }

    /// An empty buffer.
    pub fn new() -> (r: Buffer<T>)
        ensures
            r@ == Seq::<T>::empty(),
    {
        Buffer { raw: Self::raw_empty(), contents: Ghost(Seq::empty()) }
    }

    /// A buffer holding exactly the elements of `v`, in order.
    pub fn from_vec(v: Vec<T>) -> (r: Buffer<T>)
        ensures
            r@ == v@,
    {
        let ghost c = v@;
        Buffer { raw: Self::raw_from_vec(v), contents: Ghost(c) }
    }

    /// Relies on `smallvec::SmallVec::len`: the number of stored elements.
    #[verifier::external_body]
    pub fn len(&self) -> (n: usize)
        ensures
            n == self@.len(),
    {
        self.raw.vec.len()
    }

    /// Relies on `smallvec::SmallVec::capacity`: the number of elements
    /// the vector can hold without reallocating, never below its length.
    #[verifier::external_body]
    pub fn capacity(&self) -> (n: usize)
        ensures
            n >= self@.len(),
    {
        self.raw.vec.capacity()
    }

    /// Relies on `smallvec::SmallVec::inline_size`: the inline capacity,
    /// which is the size of the backing array type — except for a
    /// zero-sized element type, where the vector never spills and
    /// reports the all-ones capacity, as `Vec` does.
    #[verifier::external_body]
    pub fn inline_size(&self) -> (n: usize)
        ensures
            vstd::layout::size_of::<T>() > 0 ==> n == INLINE_CAPACITY,
            vstd::layout::size_of::<T>() == 0 ==> n == usize::MAX,
    {
        self.raw.vec.inline_size()
    }

    /// Relies on `smallvec::SmallVec::clear`: removes every element.
    #[verifier::external_body]
    pub fn clear(&mut self)
        ensures
            final(self)@ == Seq::<T>::empty(),
    {
        self.raw.vec.clear()
    }

    /// Relies on `smallvec`'s `Index` implementation: a reference to the
    /// element at `i`.
    #[verifier::external_body]
    pub fn get(&self, i: usize) -> (r: &T)
        requires
            i < self@.len(),
        ensures
            *r == self@[i as int],
    {
        &self.raw.vec[i]
    }

    /// Relies on `smallvec`'s `IndexMut` implementation: a mutable
    /// reference to the element at `i`.
    #[verifier::external_body]
    pub fn get_mut(&mut self, i: usize) -> (r: &mut T)
        requires
            i < old(self)@.len(),
        ensures
            *r == old(self)@[i as int],
            final(self)@ == old(self)@.update(i as int, *final(r)),
    {
        &mut self.raw.vec[i]
    }

    /// Relies on `smallvec::SmallVec::insert`: shifts the elements from
    /// `i` on one place to the right and writes `x` at `i`.
    #[verifier::external_body]
    pub fn insert_at(&mut self, i: usize, x: T)
        requires
            i <= old(self)@.len(),
            old(self)@.len() < usize::MAX,
        ensures
            final(self)@ == old(self)@.insert(i as int, x),
    {
        self.raw.vec.insert(i, x)
    }

    /// Relies on `smallvec::SmallVec::remove`: removes and returns the
    /// element at `i`, shifting the elements after it one place left.
    #[verifier::external_body]
    pub fn remove_at(&mut self, i: usize) -> (r: T)
        requires
            i < old(self)@.len(),
        ensures
            r == old(self)@[i as int],
            final(self)@ == old(self)@.remove(i as int),
    {
        self.raw.vec.remove(i)
    }

    /// Relies on `smallvec::SmallVec::grow`: re-allocates so the capacity
    /// becomes `max(new_cap, inline_size())`; the contents stay as they
    /// are. `grow` panics when `new_cap` is below the length, so that
    /// case is excluded here.
    #[verifier::external_body]
    pub fn grow(&mut self, new_cap: usize)
        requires
            new_cap >= old(self)@.len(),
        ensures
            final(self)@ == old(self)@,
    {
        self.raw.vec.grow(new_cap)
    }

    /// Relies on `smallvec::SmallVec::reserve`: ensures room for
    /// `additional` more elements; the contents stay as they are.
    #[verifier::external_body]
    pub fn reserve(&mut self, additional: usize)
        requires
            old(self)@.len() + additional <= usize::MAX,
        ensures
            final(self)@ == old(self)@,
    {
        self.raw.vec.reserve(additional)
    }

    /// Relies on `smallvec::SmallVec::reserve_exact`: like `reserve`,
    /// without over-allocation.
    #[verifier::external_body]
    pub fn reserve_exact(&mut self, additional: usize)
        requires
            old(self)@.len() + additional <= usize::MAX,
        ensures
            final(self)@ == old(self)@,
    {
        self.raw.vec.reserve_exact(additional)
    }

    /// Relies on `smallvec::SmallVec::as_slice`: the stored elements, in
    /// order.
    #[verifier::external_body]
    pub fn as_slice(&self) -> (r: &[T])
        ensures
            r@ == self@,
    {
        self.raw.vec.as_slice()
    }

    /// Relies on `smallvec::SmallVec::into_vec`: the stored elements, in
    /// order, as a `Vec`.
    #[verifier::external_body]
    pub fn into_vec(self) -> (r: Vec<T>)
        ensures
            r@ == self@,
    {
        self.raw.vec.into_vec()
    }

    /// Relies on `smallvec::SmallVec::drain`: removes the range
    /// `[start, end)` and hands its elements out, in order. `drain`
    /// panics on an inverted or out-of-bounds range, so those are
    /// excluded here.
    #[verifier::external_body]
    pub fn drain(&mut self, start: usize, end: usize) -> (r: Vec<T>)
        requires
            start <= end,
            end <= old(self)@.len(),
        ensures
            r@ == old(self)@.subrange(start as int, end as int),
            final(self)@ == old(self)@.subrange(0, start as int) + old(self)@.subrange(
                end as int,
                old(self)@.len() as int,
            ),
    {
        self.raw.vec.drain(start..end).collect()
    }
}

} // verus!
