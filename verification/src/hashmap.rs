//! A bounded key-summing map: a second name for the exhaustive-search
//! accumulator of `container`, for callers that think of it as a
//! capacity-generic hash map.
use vstd::prelude::*;

use crate::container::{SummationEM, key_mass, has_key};
use crate::mass::sum_pairs;
use crate::set::SetAlgebra;

verus! {

/// A bounded map with up to `N * N` slots whose `insert` sums the values
/// of colliding keys; keys are found by exhaustive search rather than by
/// hashing.
pub struct CGHashMap<const N: usize, K: SetAlgebra> {
    inner: SummationEM<N, K>,
}

impl<const N: usize, K: SetAlgebra> CGHashMap<N, K> {
    /// The occupied `(key, value)` slots, in insertion order.
    pub closed spec fn entries(self) -> Seq<(K, u64)> {
        self.inner.entries()
    }

    /// The map never exceeds its slot budget and never holds two slots
    /// with equal keys.
    pub open spec fn wf(self) -> bool {
        &&& self.entries().len() <= N * N
        &&& crate::container::distinct_keys(self.entries())
    }

    /// Insert a `(K, u64)` pair, summing the value if the key is already
    /// present.
    pub fn insert(&mut self, k: K, v: u64)
        requires
            old(self).wf(),
            has_key(old(self).entries(), k) || old(self).entries().len() < N * N,
            sum_pairs(old(self).entries()) + v <= u64::MAX,
        ensures
            final(self).wf(),
            forall|q: K|
                key_mass(final(self).entries(), q) == key_mass(old(self).entries(), q) + if q
                    == k {
                    v as int
                } else {
                    0
                },
            forall|q: K|
                has_key(final(self).entries(), q) <==> has_key(old(self).entries(), q) || q == k,
            sum_pairs(final(self).entries()) == sum_pairs(old(self).entries()) + v,
            old(self).entries().len() <= final(self).entries().len() <= old(self).entries().len()
                + 1,
            !has_key(old(self).entries(), k) ==> final(self).entries() == old(
                self,
            ).entries().push((k, v)),
            forall|i: int|
                0 <= i < old(self).entries().len() && (#[trigger] old(self).entries()[i]).0 == k
                    ==> final(self).entries() == old(self).entries().update(
                    i,
                    (k, (old(self).entries()[i].1 + v) as u64),
                ),
    {
        self.inner.insert(k, v);
    }

    /// Scale every value by the rational `num / den` (rounding toward
    /// zero).
    pub fn scale(&mut self, num: u64, den: u64)
        requires
            old(self).wf(),
            den >= 1,
            sum_pairs(old(self).entries()) * num <= u64::MAX,
        ensures
            final(self).wf(),
            final(self).entries().len() == old(self).entries().len(),
            forall|i: int|
                0 <= i < final(self).entries().len() ==> #[trigger] final(self).entries()[i] == (
                old(self).entries()[i].0,
                ((old(self).entries()[i].1 as int) * num / den as int) as u64,
                ),
    {
        self.inner.scale(num, den);
    }

    /// Hand back the accumulated `(key, value)` pairs.
    pub fn consume(self) -> (r: Vec<(K, u64)>)
        ensures
            r@ == self.entries(),
    {
        self.inner.consume()
    }
}

impl<const N: usize, K: SetAlgebra> Default for CGHashMap<N, K> {
    /// An empty map.
    fn default() -> (r: Self)
        ensures
            r.wf(),
            r.entries() == Seq::<(K, u64)>::empty(),
    {
        CGHashMap { inner: Default::default() }
    }
}

} // verus!
