//! The capability contract for hypothesis spaces, and its bitset model.
use vstd::prelude::*;

verus! {

/// A mathematical set, restricted to the operations the evidence engine
/// needs: subset test, intersection (`cap`), union (`cup`), complement
/// (`not`) and the empty-set identity.
///
/// Each implementor supplies spec-level counterparts of the operations and
/// proves the algebraic laws the combination and query layers rely on.
pub trait SetAlgebra: Sized + Copy {
    /// What the subset test means for this representation.
    spec fn subset_spec(self, rhs: Self) -> bool;

    /// The unique empty-set representation.
    spec fn empty_spec() -> Self;

    /// Whether this value is the empty set.
    spec fn is_empty_spec(self) -> bool;

    /// What intersection means for this representation.
    spec fn cap_spec(self, rhs: Self) -> Self;

    /// What union means for this representation.
    spec fn cup_spec(self, rhs: Self) -> Self;

    /// What complement means for this representation.
    spec fn not_spec(self) -> Self;

    /// Compute whether the LHS is a subset of the RHS.
    fn is_subset(&self, rhs: &Self) -> (r: bool)
        ensures
            r == self.subset_spec(*rhs),
    ;

    /// Compute the intersection between the LHS and RHS.
    fn cap(lhs: &Self, rhs: &Self) -> (r: Self)
        ensures
            r == lhs.cap_spec(*rhs),
    ;

    /// Compute the union between the LHS and RHS.
    fn cup(lhs: &Self, rhs: &Self) -> (r: Self)
        ensures
            r == lhs.cup_spec(*rhs),
    ;

    /// Compute the complement of this set.
    fn not(&self) -> (r: Self)
        ensures
            r == self.not_spec(),
    ;

    /// A representation of the empty set.
    fn empty() -> (r: Self)
        ensures
            r == Self::empty_spec(),
    ;

    /// Compute whether this is the empty set.
    fn is_empty(&self) -> (r: bool)
        ensures
            r == self.is_empty_spec(),
    ;

    /// Structural equality of two hypothesis values.
    fn eq_set(&self, rhs: &Self) -> (r: bool)
        ensures
            r == (*self == *rhs),
    ;

    /// The empty-set identity is unique.
    proof fn lemma_empty_unique(x: Self)
        ensures
            x.is_empty_spec() <==> x == Self::empty_spec(),
    ;

    /// Intersection is commutative.
    proof fn lemma_cap_comm(a: Self, b: Self)
        ensures
            a.cap_spec(b) == b.cap_spec(a),
    ;

    /// Intersection is associative.
    proof fn lemma_cap_assoc(a: Self, b: Self, c: Self)
        ensures
            a.cap_spec(b).cap_spec(c) == a.cap_spec(b.cap_spec(c)),
    ;

    /// The empty set is a subset of everything.
    proof fn lemma_empty_subset(x: Self)
        ensures
            Self::empty_spec().subset_spec(x),
    ;

    /// Intersecting with the empty set yields the empty set.
    proof fn lemma_cap_empty(x: Self)
        ensures
            x.cap_spec(Self::empty_spec()) == Self::empty_spec(),
    ;

    /// The empty set is the identity of union.
    proof fn lemma_cup_empty(x: Self)
        ensures
            Self::empty_spec().cup_spec(x) == x,
            x.cup_spec(Self::empty_spec()) == x,
    ;

    /// Complement is an involution.
    proof fn lemma_not_involutive(x: Self)
        ensures
            x.not_spec().not_spec() == x,
    ;

    /// Only the empty set is a subset of both a set and its complement.
    proof fn lemma_subset_of_both(p: Self, q: Self)
        ensures
            p.subset_spec(q) && p.subset_spec(q.not_spec()) ==> p.is_empty_spec(),
    ;
}

/// The fixed-width bitset model: one bit per elementary hypothesis.
impl SetAlgebra for usize {
    open spec fn subset_spec(self, rhs: Self) -> bool {
        self & rhs == self
    }

    open spec fn empty_spec() -> Self {
        0
    }

    open spec fn is_empty_spec(self) -> bool {
        self == 0
    }

    open spec fn cap_spec(self, rhs: Self) -> Self {
        self & rhs
    }

    open spec fn cup_spec(self, rhs: Self) -> Self {
        self | rhs
    }

    open spec fn not_spec(self) -> Self {
        !self
    }

    fn is_subset(&self, rhs: &Self) -> bool {
        *self & *rhs == *self
    }

    fn cap(lhs: &Self, rhs: &Self) -> Self {
        *lhs & *rhs
    }

    fn cup(lhs: &Self, rhs: &Self) -> Self {
        *lhs | *rhs
    }

    fn not(&self) -> Self {
        !*self
    }

    fn empty() -> Self {
        0
    }

    fn is_empty(&self) -> bool {
        *self == 0
    }

    fn eq_set(&self, rhs: &Self) -> bool {
        *self == *rhs
    }

    proof fn lemma_empty_unique(x: Self) {
    }

    proof fn lemma_cap_comm(a: Self, b: Self) {
        assert(a & b == b & a) by (bit_vector);
    }

    proof fn lemma_cap_assoc(a: Self, b: Self, c: Self) {
        assert((a & b) & c == a & (b & c)) by (bit_vector);
    }

    proof fn lemma_empty_subset(x: Self) {
        assert(0usize & x == 0usize) by (bit_vector);
    }

    proof fn lemma_cap_empty(x: Self) {
        assert(x & 0usize == 0usize) by (bit_vector);
    }

    proof fn lemma_cup_empty(x: Self) {
        assert(0usize | x == x) by (bit_vector);
        assert(x | 0usize == x) by (bit_vector);
    }

    proof fn lemma_not_involutive(x: Self) {
        assert(!(!x) == x) by (bit_vector);
    }

    proof fn lemma_subset_of_both(p: Self, q: Self) {
        assert(p & q == p && p & !q == p ==> p == 0) by (bit_vector);
    }
}

/// A wider fixed-width bitset: 128 elementary hypotheses held in two
/// 64-bit limbs.
#[derive(Clone, Copy, Debug, PartialEq, Eq, Structural)]
pub struct WideBitset {
    /// Bits 0 to 63 of the hypothesis space.
    pub lo: u64,
    /// Bits 64 to 127 of the hypothesis space.
    pub hi: u64,
}

impl SetAlgebra for WideBitset {
    open spec fn subset_spec(self, rhs: Self) -> bool {
        self.lo & rhs.lo == self.lo && self.hi & rhs.hi == self.hi
    }

    open spec fn empty_spec() -> Self {
        WideBitset { lo: 0, hi: 0 }
    }

    open spec fn is_empty_spec(self) -> bool {
        self.lo == 0 && self.hi == 0
    }

    open spec fn cap_spec(self, rhs: Self) -> Self {
        WideBitset { lo: self.lo & rhs.lo, hi: self.hi & rhs.hi }
    }

    open spec fn cup_spec(self, rhs: Self) -> Self {
        WideBitset { lo: self.lo | rhs.lo, hi: self.hi | rhs.hi }
    }

    open spec fn not_spec(self) -> Self {
        WideBitset { lo: !self.lo, hi: !self.hi }
    }

    fn is_subset(&self, rhs: &Self) -> bool {
        self.lo & rhs.lo == self.lo && self.hi & rhs.hi == self.hi
    }

    fn cap(lhs: &Self, rhs: &Self) -> Self {
        WideBitset { lo: lhs.lo & rhs.lo, hi: lhs.hi & rhs.hi }
    }

    fn cup(lhs: &Self, rhs: &Self) -> Self {
        WideBitset { lo: lhs.lo | rhs.lo, hi: lhs.hi | rhs.hi }
    }

    fn not(&self) -> Self {
        WideBitset { lo: !self.lo, hi: !self.hi }
    }

    fn empty() -> Self {
        WideBitset { lo: 0, hi: 0 }
    }

    fn is_empty(&self) -> bool {
        self.lo == 0 && self.hi == 0
    }

    fn eq_set(&self, rhs: &Self) -> bool {
        self.lo == rhs.lo && self.hi == rhs.hi
    }

    proof fn lemma_empty_unique(x: Self) {
    }

    proof fn lemma_cap_comm(a: Self, b: Self) {
        let (al, ah, bl, bh) = (a.lo, a.hi, b.lo, b.hi);
        assert(al & bl == bl & al) by (bit_vector);
        assert(ah & bh == bh & ah) by (bit_vector);
    }

    proof fn lemma_cap_assoc(a: Self, b: Self, c: Self) {
        let (al, ah, bl, bh, cl, ch) = (a.lo, a.hi, b.lo, b.hi, c.lo, c.hi);
        assert((al & bl) & cl == al & (bl & cl)) by (bit_vector);
        assert((ah & bh) & ch == ah & (bh & ch)) by (bit_vector);
    }

    proof fn lemma_empty_subset(x: Self) {
        let (xl, xh) = (x.lo, x.hi);
        assert(0u64 & xl == 0u64) by (bit_vector);
        assert(0u64 & xh == 0u64) by (bit_vector);
    }

    proof fn lemma_cap_empty(x: Self) {
        let (xl, xh) = (x.lo, x.hi);
        assert(xl & 0u64 == 0u64) by (bit_vector);
        assert(xh & 0u64 == 0u64) by (bit_vector);
    }

    proof fn lemma_cup_empty(x: Self) {
        let (xl, xh) = (x.lo, x.hi);
        assert(0u64 | xl == xl) by (bit_vector);
        assert(0u64 | xh == xh) by (bit_vector);
        assert(xl | 0u64 == xl) by (bit_vector);
        assert(xh | 0u64 == xh) by (bit_vector);
    }

    proof fn lemma_not_involutive(x: Self) {
        let (xl, xh) = (x.lo, x.hi);
        assert(!(!xl) == xl) by (bit_vector);
        assert(!(!xh) == xh) by (bit_vector);
    }

    proof fn lemma_subset_of_both(p: Self, q: Self) {
        let (pl, ph, ql, qh) = (p.lo, p.hi, q.lo, q.hi);
        assert(pl & ql == pl && pl & !ql == pl ==> pl == 0) by (bit_vector);
        assert(ph & qh == ph && ph & !qh == ph ==> ph == 0) by (bit_vector);
    }
}

} // verus!
