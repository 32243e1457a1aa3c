use vstd::prelude::*;

verus! {

/// The ordering that drives a `SmallOrdSet`.
///
/// The relation `leq` must be a total preorder: every two elements are
/// comparable and the relation is transitive. Antisymmetry is *not*
/// required: two structurally different elements may occupy the same
/// position in the order (see [`eqv`]). `KeyValuePair` uses this freedom
/// to order pairs by their key alone.
pub trait TotalOrder: Sized {
    /// `self` sorts at or before `other`.
    spec fn leq(self, other: Self) -> bool;

    /// Any two elements are comparable.
    proof fn lemma_total(a: Self, b: Self)
        ensures
            a.leq(b) || b.leq(a),
    ;

    /// The ordering is transitive.
    proof fn lemma_transitive(a: Self, b: Self, c: Self)
        requires
            a.leq(b),
            b.leq(c),
        ensures
            a.leq(c),
    ;

    /// Executable comparison agreeing with `leq`.
    fn leq_exec(&self, other: &Self) -> (r: bool)
        ensures
            r == self.leq(*other),
    ;
}

/// `a` sorts strictly before `b`.
pub open spec fn before<T: TotalOrder>(a: T, b: T) -> bool {
    a.leq(b) && !b.leq(a)
}

/// `a` and `b` occupy the same position in the order; the set treats them
/// as the same element, even when they differ structurally.
pub open spec fn eqv<T: TotalOrder>(a: T, b: T) -> bool {
    a.leq(b) && b.leq(a)
}

pub proof fn lemma_before_trans<T: TotalOrder>(a: T, b: T, c: T)
    requires
        before(a, b),
        before(b, c),
    ensures
        before(a, c),
{
    T::lemma_transitive(a, b, c);
    if c.leq(a) {
        T::lemma_transitive(c, a, b);
    }
}

pub proof fn lemma_before_eqv_trans<T: TotalOrder>(a: T, b: T, c: T)
    requires
        before(a, b),
        eqv(b, c),
    ensures
        before(a, c),
{
    T::lemma_transitive(a, b, c);
    if c.leq(a) {
        T::lemma_transitive(b, c, a);
    }
}

pub proof fn lemma_eqv_trans<T: TotalOrder>(a: T, b: T, c: T)
    requires
        eqv(a, b),
        eqv(b, c),
    ensures
        eqv(a, c),
{
    T::lemma_transitive(a, b, c);
    T::lemma_transitive(c, b, a);
}

pub proof fn lemma_eqv_before_trans<T: TotalOrder>(a: T, b: T, c: T)
    requires
        eqv(a, b),
        before(b, c),
    ensures
        before(a, c),
{
    T::lemma_transitive(a, b, c);
    if c.leq(a) {
        T::lemma_transitive(c, a, b);
    }
}

impl TotalOrder for () {
    open spec fn leq(self, other: Self) -> bool {
        true
    }

    proof fn lemma_total(a: Self, b: Self) {
    }

    proof fn lemma_transitive(a: Self, b: Self, c: Self) {
    }

    fn leq_exec(&self, other: &Self) -> (r: bool) {
        true
    }
}

impl TotalOrder for u8 {
    open spec fn leq(self, other: Self) -> bool {
        self <= other
    }

    proof fn lemma_total(a: Self, b: Self) {
    }

    proof fn lemma_transitive(a: Self, b: Self, c: Self) {
    }

    fn leq_exec(&self, other: &Self) -> (r: bool) {
        *self <= *other
    }
}

impl TotalOrder for u32 {
    open spec fn leq(self, other: Self) -> bool {
        self <= other
    }

    proof fn lemma_total(a: Self, b: Self) {
    }

    proof fn lemma_transitive(a: Self, b: Self, c: Self) {
    }

    fn leq_exec(&self, other: &Self) -> (r: bool) {
        *self <= *other
    }
}

impl TotalOrder for u64 {
    open spec fn leq(self, other: Self) -> bool {
        self <= other
    }

    proof fn lemma_total(a: Self, b: Self) {
    }

    proof fn lemma_transitive(a: Self, b: Self, c: Self) {
    }

    fn leq_exec(&self, other: &Self) -> (r: bool) {
        *self <= *other
    }
}

impl TotalOrder for usize {
    open spec fn leq(self, other: Self) -> bool {
        self <= other
    }

    proof fn lemma_total(a: Self, b: Self) {
    }

    proof fn lemma_transitive(a: Self, b: Self, c: Self) {
    }

    fn leq_exec(&self, other: &Self) -> (r: bool) {
        *self <= *other
    }
}

impl TotalOrder for i32 {
    open spec fn leq(self, other: Self) -> bool {
        self <= other
    }

    proof fn lemma_total(a: Self, b: Self) {
    }

    proof fn lemma_transitive(a: Self, b: Self, c: Self) {
    }

    fn leq_exec(&self, other: &Self) -> (r: bool) {
        *self <= *other
    }
}

impl TotalOrder for i64 {
    open spec fn leq(self, other: Self) -> bool {
        self <= other
    }

    proof fn lemma_total(a: Self, b: Self) {
    }

    proof fn lemma_transitive(a: Self, b: Self, c: Self) {
    }

    fn leq_exec(&self, other: &Self) -> (r: bool) {
        *self <= *other
    }
}

impl TotalOrder for char {
    open spec fn leq(self, other: Self) -> bool {
        self as u32 <= other as u32
    }

    proof fn lemma_total(a: Self, b: Self) {
    }

    proof fn lemma_transitive(a: Self, b: Self, c: Self) {
    }

    fn leq_exec(&self, other: &Self) -> (r: bool) {
        *self as u32 <= *other as u32
    }
}

} // verus!
