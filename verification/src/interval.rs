//! An axis-aligned interval product as a hypothesis space: one optional
//! `(low, high)` interval per dimension, with `None` marking a dimension
//! with no extent.
//!
//! Unions are represented by their hull: the union of two disjoint
//! intervals cannot be represented exactly in this shape.
use vstd::prelude::*;

verus! {

/// The intersection of one pair of optional dimensions.
pub open spec fn cap_dim(l: Option<(i32, i32)>, r: Option<(i32, i32)>) -> Option<(i32, i32)> {
    match (l, r) {
        (Some(a), Some(b)) => if a.1 >= b.0 && b.1 >= a.0 {
            Some(
                (
                    if a.0 >= b.0 {
                        a.0
                    } else {
                        b.0
                    },
                    if a.1 <= b.1 {
                        a.1
                    } else {
                        b.1
                    },
                ),
            )
        } else {
            None
        },
        _ => None,
    }
}

/// The hull of one pair of optional dimensions.
pub open spec fn cup_dim(l: Option<(i32, i32)>, r: Option<(i32, i32)>) -> Option<(i32, i32)> {
    match (l, r) {
        (None, None) => None,
        (Some(a), None) => Some(a),
        (None, Some(b)) => Some(b),
        (Some(a), Some(b)) => Some(
            (
                if a.0 <= b.0 {
                    a.0
                } else {
                    b.0
                },
                if a.1 >= b.1 {
                    a.1
                } else {
                    b.1
                },
            ),
        ),
    }
}

/// Whether dimension `l` lies within dimension `r`.
pub open spec fn subset_dim(l: Option<(i32, i32)>, r: Option<(i32, i32)>) -> bool {
    match (l, r) {
        (None, None) => true,
        (Some(a), Some(b)) => a.0 >= b.0 && a.1 <= b.1,
        _ => false,
    }
}

/// An `N`-dimensional interval.
#[derive(Debug)]
pub struct Interval<const N: usize> {
    buf: Vec<Option<(i32, i32)>>,
}

impl<const N: usize> Interval<N> {
    /// The per-dimension extents.
    pub closed spec fn dims(self) -> Seq<Option<(i32, i32)>> {
        self.buf@
    }

    /// Exactly `N` dimensions, each a well-ordered interval.
    pub open spec fn wf(self) -> bool {
        &&& self.dims().len() == N
        &&& forall|i: int|
            0 <= i < N ==> ((#[trigger] self.dims()[i]) matches Some(p) ==> p.0 <= p.1)
    }

    /// Build an interval from its dimensions; each present dimension must
    /// have its low bound at or below its high bound.
    pub fn build(buf: Vec<Option<(i32, i32)>>) -> (r: Self)
        requires
            buf@.len() == N,
            forall|i: int| 0 <= i < N ==> ((#[trigger] buf@[i]) matches Some(p) ==> p.0 <= p.1),
        ensures
            r.wf(),
            r.dims() == buf@,
    {
        Interval { buf }
    }

    /// The empty interval: no extent in any dimension.
    #[verifier::loop_isolation(false)]
    pub fn empty() -> (r: Self)
        ensures
            r.wf(),
            r.dims() == Seq::new(N as nat, |i: int| None::<(i32, i32)>),
    {
        let mut buf: Vec<Option<(i32, i32)>> = Vec::new();
        let mut i: usize = 0;
        while i < N
            invariant
                i <= N,
                buf@ == Seq::new(i as nat, |t: int| None::<(i32, i32)>),
            decreases N - i,
        {
            buf.push(None);
            proof {
                assert(buf@ =~= Seq::new((i + 1) as nat, |t: int| None::<(i32, i32)>));
            }
            i += 1;
        }
        Interval { buf }
    }

    /// Compute whether every dimension of this interval lies within the
    /// corresponding dimension of `rhs`.
    #[verifier::loop_isolation(false)]
    pub fn is_subset(&self, rhs: &Self) -> (r: bool)
        requires
            self.wf(),
            rhs.wf(),
        ensures
            r == forall|i: int| 0 <= i < N ==> subset_dim(self.dims()[i], rhs.dims()[i]),
    {
        let mut i: usize = 0;
        while i < N
            invariant
                i <= N,
                forall|t: int| 0 <= t < i ==> subset_dim(self.dims()[t], rhs.dims()[t]),
            decreases N - i,
        {
            let ok = match (self.buf[i], rhs.buf[i]) {
                (None, None) => true,
                (Some(a), Some(b)) => a.0 >= b.0 && a.1 <= b.1,
                _ => false,
            };
            if !ok {
                return false;
            }
            i += 1;
        }
        true
    }

    /// Intersect one pair of dimensions: `None` when they are disjoint,
    /// otherwise the overlap.
    pub fn intersect(lhs: &(i32, i32), rhs: &(i32, i32)) -> (r: Option<(i32, i32)>)
        ensures
            r == cap_dim(Some(*lhs), Some(*rhs)),
    {
        if lhs.1 >= rhs.0 && rhs.1 >= lhs.0 {
            let lo = if lhs.0 >= rhs.0 {
                lhs.0
            } else {
                rhs.0
            };
            let hi = if lhs.1 <= rhs.1 {
                lhs.1
            } else {
                rhs.1
            };
            Some((lo, hi))
        } else {
            None
        }
    }

    /// Compute the dimension-wise intersection of `lhs` and `rhs`.
    #[verifier::loop_isolation(false)]
    pub fn cap(lhs: &Self, rhs: &Self) -> (r: Self)
        requires
            lhs.wf(),
            rhs.wf(),
        ensures
            r.wf(),
            r.dims().len() == N,
            forall|i: int| 0 <= i < N ==> #[trigger] r.dims()[i] == cap_dim(
                lhs.dims()[i],
                rhs.dims()[i],
            ),
    {
        let mut buf: Vec<Option<(i32, i32)>> = Vec::new();
        let mut i: usize = 0;
        while i < N
            invariant
                i <= N,
                buf@.len() == i,
                forall|t: int| 0 <= t < i ==> #[trigger] buf@[t] == cap_dim(
                    lhs.dims()[t],
                    rhs.dims()[t],
                ),
                forall|t: int| 0 <= t < i ==> ((#[trigger] buf@[t]) matches Some(p) ==> p.0 <= p.1),
            decreases N - i,
        {
            let d = match (lhs.buf[i], rhs.buf[i]) {
                (Some(a), Some(b)) => {
                    if a.1 >= b.0 && b.1 >= a.0 {
                        let lo = if a.0 >= b.0 {
                            a.0
                        } else {
                            b.0
                        };
                        let hi = if a.1 <= b.1 {
                            a.1
                        } else {
                            b.1
                        };
                        Some((lo, hi))
                    } else {
                        None
                    }
                },
                _ => None,
            };
            buf.push(d);
            i += 1;
        }
        Interval { buf }
    }

    /// Compute the dimension-wise hull of `lhs` and `rhs` (the union when
    /// the dimensions overlap; the hull otherwise, since a disjoint union
    /// is not representable).
    #[verifier::loop_isolation(false)]
    pub fn cup(lhs: &Self, rhs: &Self) -> (r: Self)
        requires
            lhs.wf(),
            rhs.wf(),
        ensures
            r.wf(),
            r.dims().len() == N,
            forall|i: int| 0 <= i < N ==> #[trigger] r.dims()[i] == cup_dim(
                lhs.dims()[i],
                rhs.dims()[i],
            ),
    {
        let mut buf: Vec<Option<(i32, i32)>> = Vec::new();
        let mut i: usize = 0;
        while i < N
            invariant
                i <= N,
                buf@.len() == i,
                forall|t: int| 0 <= t < i ==> #[trigger] buf@[t] == cup_dim(
                    lhs.dims()[t],
                    rhs.dims()[t],
                ),
                forall|t: int| 0 <= t < i ==> ((#[trigger] buf@[t]) matches Some(p) ==> p.0 <= p.1),
            decreases N - i,
        {
            let d = match (lhs.buf[i], rhs.buf[i]) {
                (None, None) => None,
                (Some(a), None) => Some(a),
                (None, Some(b)) => Some(b),
                (Some(a), Some(b)) => {
                    let lo = if a.0 <= b.0 {
                        a.0
                    } else {
                        b.0
                    };
                    let hi = if a.1 >= b.1 {
                        a.1
                    } else {
                        b.1
                    };
                    Some((lo, hi))
                },
            };
            buf.push(d);
            i += 1;
        }
        Interval { buf }
    }
}

impl<const N: usize> PartialEq for Interval<N> {
    /// Dimension-wise equality: both absent, or both present and equal.
    #[verifier::loop_isolation(false)]
    fn eq(&self, rhs: &Self) -> (r: bool) {
        let n = self.buf.len();
        if n != rhs.buf.len() {
            return false;
        }
        let mut i: usize = 0;
        while i < n
            invariant
                i <= n,
                n == self.dims().len() == rhs.dims().len(),
                forall|t: int| 0 <= t < i ==> self.dims()[t] == rhs.dims()[t],
            decreases n - i,
        {
            let same = match (self.buf[i], rhs.buf[i]) {
                (None, None) => true,
                (Some(a), Some(b)) => a.0 == b.0 && a.1 == b.1,
                _ => false,
            };
            if !same {
                return false;
            }
            i += 1;
        }
        proof {
            assert(self.dims() =~= rhs.dims());
        }
        true
    }
}

impl<const N: usize> vstd::std_specs::cmp::PartialEqSpecImpl for Interval<N> {
    open spec fn obeys_eq_spec() -> bool {
        true
    }

    open spec fn eq_spec(&self, rhs: &Self) -> bool {
        self.dims() == rhs.dims()
    }
}

} // verus!
