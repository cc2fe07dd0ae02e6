//! Containers needed for the Dempster-Shafer engine: a bounded
//! key-deduplicating accumulator (this file) and a bounded top-K selector
//! (see `PriorityHeap` below).
use vstd::prelude::*;

use crate::mass::{sum_pairs, lemma_sum_pairs_nonneg, lemma_sum_pairs_bounds_each};
use crate::set::SetAlgebra;

verus! {

/// Mass accumulated under key `k`: the sum of the masses of all entries
/// whose hypothesis equals `k`.
pub open spec fn key_mass<K>(s: Seq<(K, u64)>, k: K) -> int
    decreases s.len(),
{
    if s.len() == 0 {
        0
    } else {
        key_mass(s.drop_last(), k) + if s.last().0 == k {
            s.last().1 as int
        } else {
            0
        }
    }
}

/// Whether some entry carries key `k`.
pub open spec fn has_key<K>(s: Seq<(K, u64)>, k: K) -> bool {
    exists|i: int| 0 <= i < s.len() && s[i].0 == k
}

/// No two entries carry the same key.
pub open spec fn distinct_keys<K>(s: Seq<(K, u64)>) -> bool {
    forall|i: int, j: int| 0 <= i < j < s.len() ==> s[i].0 != s[j].0
}

/// A key that no entry carries accumulates no mass.
pub proof fn lemma_key_mass_absent<K>(s: Seq<(K, u64)>, k: K)
    requires
        !has_key(s, k),
    ensures
        key_mass(s, k) == 0,
    decreases s.len(),
{
    if s.len() > 0 {
        assert(forall|i: int| 0 <= i < s.len() - 1 ==> s.drop_last()[i] == s[i]);
        lemma_key_mass_absent(s.drop_last(), k);
    }
}

/// With distinct keys, the accumulated mass of an entry's key is exactly
/// that entry's mass.
pub proof fn lemma_key_mass_distinct<K>(s: Seq<(K, u64)>, i: int)
    requires
        distinct_keys(s),
        0 <= i < s.len(),
    ensures
        key_mass(s, s[i].0) == s[i].1 as int,
    decreases s.len(),
{
    if i == s.len() - 1 {
        assert(!has_key(s.drop_last(), s[i].0)) by {
            assert(forall|j: int| 0 <= j < s.len() - 1 ==> s.drop_last()[j] == s[j]);
        }
        lemma_key_mass_absent(s.drop_last(), s[i].0);
    } else {
        assert(forall|j: int| 0 <= j < s.len() - 1 ==> s.drop_last()[j] == s[j]);
        lemma_key_mass_distinct(s.drop_last(), i);
        assert(s.last().0 != s[i].0);
    }
}

/// Updating slot `i`'s mass by `v` adds `v` to its key's accumulated mass
/// and leaves every other key's accumulated mass unchanged.
proof fn lemma_update_mass<K>(s: Seq<(K, u64)>, i: int, v: int, q: K)
    requires
        0 <= i < s.len(),
        0 <= v,
        s[i].1 + v <= u64::MAX,
    ensures
        key_mass(s.update(i, (s[i].0, (s[i].1 + v) as u64)), q) == key_mass(s, q) + if s[i].0
            == q {
            v
        } else {
            0
        },
    decreases s.len(),
{
    let t = s.update(i, (s[i].0, (s[i].1 + v) as u64));
    if i == s.len() - 1 {
        assert(t.drop_last() =~= s.drop_last());
        assert(t.last() == (s[i].0, (s[i].1 + v) as u64));
    } else {
        assert(forall|j: int| 0 <= j < s.len() - 1 ==> s.drop_last()[j] == s[j]);
        lemma_update_mass(s.drop_last(), i, v, q);
        assert(t.drop_last() =~= s.drop_last().update(
            i,
            (s.drop_last()[i].0, (s.drop_last()[i].1 + v) as u64),
        ));
        assert(t.last() == s.last());
    }
}

/// Updating one slot's mass by `v` raises the total by `v`.
proof fn lemma_sum_update<K>(s: Seq<(K, u64)>, i: int, v: int)
    requires
        0 <= i < s.len(),
        0 <= v,
        s[i].1 + v <= u64::MAX,
    ensures
        sum_pairs(s.update(i, (s[i].0, (s[i].1 + v) as u64))) == sum_pairs(s) + v,
    decreases s.len(),
{
    let t = s.update(i, (s[i].0, (s[i].1 + v) as u64));
    if i == s.len() - 1 {
        assert(t.drop_last() =~= s.drop_last());
    } else {
        assert(forall|j: int| 0 <= j < s.len() - 1 ==> s.drop_last()[j] == s[j]);
        lemma_sum_update(s.drop_last(), i, v);
        assert(t.drop_last() =~= s.drop_last().update(
            i,
            (s.drop_last()[i].0, (s.drop_last()[i].1 + v) as u64),
        ));
        assert(t.last() == s.last());
    }
}

/// "Exhaustive-search map": a bounded accumulator with up to `N * N` slots
/// that sums the masses of colliding hypotheses. Keys are found by
/// exhaustive search, so no hashing is required.
pub struct SummationEM<const N: usize, K: SetAlgebra> {
    buf: Vec<(K, u64)>,
}

impl<const N: usize, K: SetAlgebra> SummationEM<N, K> {
    /// The occupied `(hypothesis, mass)` slots, in insertion order.
    pub closed spec fn entries(self) -> Seq<(K, u64)> {
        self.buf@
    }

    /// The accumulator never exceeds its `N * N` slot budget and never
    /// holds two slots with equal hypotheses.
    pub open spec fn wf(self) -> bool {
        &&& self.entries().len() <= N * N
        &&& distinct_keys(self.entries())
    }

    /// Insert a `(K, u64)` pair into the map, summing the mass if the
    /// hypothesis is already present.
    #[verifier::loop_isolation(false)]
    pub fn insert(&mut self, k: K, v: u64)
        requires
            old(self).wf(),
            has_key(old(self).entries(), k) || old(self).entries().len() < N * N,
            sum_pairs(old(self).entries()) + v <= u64::MAX,
        ensures
            final(self).wf(),
            forall|q: K|
                key_mass(final(self).entries(), q) == key_mass(old(self).entries(), q) + if q
                    == k {
                    v as int
                } else {
                    0
                },
            forall|q: K|
                has_key(final(self).entries(), q) <==> has_key(old(self).entries(), q) || q == k,
            sum_pairs(final(self).entries()) == sum_pairs(old(self).entries()) + v,
            old(self).entries().len() <= final(self).entries().len() <= old(self).entries().len()
                + 1,
            !has_key(old(self).entries(), k) ==> final(self).entries() == old(
                self,
            ).entries().push((k, v)),
            forall|i: int|
                0 <= i < old(self).entries().len() && (#[trigger] old(self).entries()[i]).0 == k
                    ==> final(self).entries() == old(self).entries().update(
                    i,
                    (k, (old(self).entries()[i].1 + v) as u64),
                ),
    {
        let ghost s0 = self.buf@;
        let n = self.buf.len();
        let mut i: usize = 0;
        while i < n
            invariant
                self.buf@ == s0,
                i <= n,
                forall|j: int| 0 <= j < i ==> s0[j].0 != k,
            decreases n - i,
        {
            if self.buf[i].0.eq_set(&k) {
                proof {
                    lemma_sum_pairs_nonneg(s0);
                    lemma_sum_pairs_bounds_each(s0, i as int);
                }
                let m = self.buf[i].1;
                let kk = self.buf[i].0;
                self.buf[i] = (kk, m + v);
                proof {
                    let t = s0.update(i as int, (s0[i as int].0, (s0[i as int].1 + v) as u64));
                    assert(self.buf@ == t);
                    assert forall|q: K|
                        key_mass(t, q) == key_mass(s0, q) + if q == k {
                            v as int
                        } else {
                            0
                        } by {
                        lemma_update_mass(s0, i as int, v as int, q);
                    }
                    assert forall|q: K| has_key(t, q) <==> has_key(s0, q) || q == k by {
                        assert(forall|j: int| 0 <= j < t.len() ==> t[j].0 == s0[j].0);
                        if has_key(t, q) {
                            let w = choose|w: int| 0 <= w < t.len() && t[w].0 == q;
                            assert(s0[w].0 == q);
                        }
                        if has_key(s0, q) {
                            let w = choose|w: int| 0 <= w < s0.len() && s0[w].0 == q;
                            assert(t[w].0 == q);
                        }
                        if q == k {
                            assert(t[i as int].0 == q);
                        }
                    }
                    lemma_sum_update(s0, i as int, v as int);
                    assert forall|a: int, b: int| 0 <= a < b < t.len() implies t[a].0
                        != t[b].0 by {
                        assert(s0[a].0 != s0[b].0);
                    }
                    assert forall|j: int| 0 <= j < s0.len() && (#[trigger] s0[j]).0 == k implies
                        self.buf@ == s0.update(j, (k, (s0[j].1 + v) as u64)) by {
                        if j < i {
                            assert(s0[j].0 != k);
                        } else if j > i {
                            assert(s0[i as int].0 != s0[j].0);
                        } else {
                            assert(t == s0.update(j, (k, (s0[j].1 + v) as u64)));
                        }
                    }
                }
                return ;
            }
            i += 1;
        }
        assert(!has_key(s0, k));
        self.buf.push((k, v));
        proof {
            let t = s0.push((k, v));
            assert(self.buf@ == t);
            assert(t.drop_last() == s0);
            lemma_key_mass_absent(s0, k);
            assert forall|q: K|
                key_mass(t, q) == key_mass(s0, q) + if q == k {
                    v as int
                } else {
                    0
                } by {}
            assert forall|q: K| has_key(t, q) <==> has_key(s0, q) || q == k by {
                assert(forall|j: int| 0 <= j < s0.len() ==> t[j].0 == s0[j].0);
                if has_key(t, q) {
                    let w = choose|w: int| 0 <= w < t.len() && t[w].0 == q;
                    if w < s0.len() {
                        assert(s0[w].0 == q);
                    }
                }
                if has_key(s0, q) {
                    let w = choose|w: int| 0 <= w < s0.len() && s0[w].0 == q;
                    assert(t[w].0 == q);
                }
                if q == k {
                    assert(t[s0.len() as int].0 == q);
                }
            }
            assert forall|a: int, b: int| 0 <= a < b < t.len() implies t[a].0 != t[b].0 by {
                if b < s0.len() {
                    assert(s0[a].0 != s0[b].0);
                } else {
                    assert(s0[a].0 != k);
                }
            }
            assert(forall|j: int| 0 <= j < s0.len() ==> (#[trigger] s0[j]).0 != k);
        }
    }

    /// Scale every accumulated mass by the rational `num / den`
    /// (rounding toward zero).
    #[verifier::loop_isolation(false)]
    pub fn scale(&mut self, num: u64, den: u64)
        requires
            old(self).wf(),
            den >= 1,
            sum_pairs(old(self).entries()) * num <= u64::MAX,
        ensures
            final(self).wf(),
            final(self).entries().len() == old(self).entries().len(),
            forall|i: int|
                0 <= i < final(self).entries().len() ==> #[trigger] final(self).entries()[i] == (
                old(self).entries()[i].0,
                ((old(self).entries()[i].1 as int) * num / den as int) as u64,
                ),
    {
        let ghost s0 = self.buf@;
        let n = self.buf.len();
        let mut i: usize = 0;
        while i < n
            invariant
                self.buf@.len() == s0.len(),
                i <= n,
                forall|j: int| i <= j < n ==> self.buf@[j] == s0[j],
                forall|j: int|
                    0 <= j < i ==> #[trigger] self.buf@[j] == (
                    s0[j].0,
                    ((s0[j].1 as int) * num / den as int) as u64,
                    ),
            decreases n - i,
        {
            let kk = self.buf[i].0;
            let m = self.buf[i].1;
            proof {
                lemma_sum_pairs_nonneg(s0);
                lemma_sum_pairs_bounds_each(s0, i as int);
                vstd::arithmetic::mul::lemma_mul_inequality(
                    m as int,
                    sum_pairs(s0),
                    num as int,
                );
                vstd::arithmetic::mul::lemma_mul_is_commutative(m as int, num as int);
                vstd::arithmetic::mul::lemma_mul_is_commutative(sum_pairs(s0), num as int);
                assert((m as u128) * (num as u128) <= u64::MAX);
                vstd::arithmetic::div_mod::lemma_div_nonincreasing(
                    ((m as u128) * (num as u128)) as int,
                    den as int,
                );
            }
            let scaled = (((m as u128) * (num as u128)) / (den as u128)) as u64;
            self.buf[i] = (kk, scaled);
            i += 1;
        }
        proof {
            assert forall|a: int, b: int| 0 <= a < b < self.buf@.len() implies self.buf@[a].0
                != self.buf@[b].0 by {
                assert(s0[a].0 != s0[b].0);
            }
        }
    }

    /// Hand back the accumulated `(hypothesis, mass)` pairs.
    pub fn consume(self) -> (r: Vec<(K, u64)>)
        ensures
            r@ == self.entries(),
    {
        self.buf
    }
}

impl<const N: usize, K: SetAlgebra> Default for SummationEM<N, K> {
    /// An empty accumulator.
    fn default() -> (r: Self)
        ensures
            r.wf(),
            r.entries() == Seq::<(K, u64)>::empty(),
    {
        SummationEM { buf: Vec::new() }
    }
}

/// The position of the smallest mass, ties resolved toward the earliest
/// slot.
pub open spec fn min_index<S>(s: Seq<(S, u64)>) -> int
    decreases s.len(),
{
    if s.len() <= 1 {
        0
    } else {
        let mi = min_index(s.drop_last());
        if s.last().1 < s[mi].1 {
            s.len() - 1
        } else {
            mi
        }
    }
}

/// `min_index` lands in range, on a minimal mass, and on the earliest
/// minimal mass.
pub proof fn lemma_min_index<S>(s: Seq<(S, u64)>)
    requires
        s.len() > 0,
    ensures
        0 <= min_index(s) < s.len(),
        forall|j: int| 0 <= j < s.len() ==> s[min_index(s)].1 <= #[trigger] s[j].1,
        forall|j: int| 0 <= j < min_index(s) ==> s[min_index(s)].1 < #[trigger] s[j].1,
    decreases s.len(),
{
    if s.len() > 1 {
        lemma_min_index(s.drop_last());
        assert(forall|j: int| 0 <= j < s.len() - 1 ==> s.drop_last()[j] == s[j]);
    }
}

/// The top-K insertion step over a plain buffer with a run-time capacity:
/// push while below `cap`, otherwise replace the earliest minimal-mass
/// entry when the incoming mass is strictly larger. Returns the pair that
/// left the selection: `None` while filling, the evicted minimum on
/// replacement, and the incoming pair itself when it was rejected.
#[verifier::loop_isolation(false)]
pub(crate) fn bounded_insert<S: SetAlgebra>(buf: &mut Vec<(S, u64)>, cap: usize, v: (S, u64)) -> (r:
    Option<(S, u64)>)
    requires
        old(buf)@.len() <= cap,
    ensures
        final(buf)@.len() <= cap,
        old(buf)@.len() < cap ==> final(buf)@ == old(buf)@.push(v) && r is None,
        old(buf)@.len() >= cap && cap == 0 ==> final(buf)@ == old(buf)@ && r == Some(v),
        (old(buf)@.len() >= cap && cap > 0 && v.1 > old(buf)@[min_index(old(buf)@)].1)
            ==> final(buf)@ == old(buf)@.update(min_index(old(buf)@), v) && r == Some(
            old(buf)@[min_index(old(buf)@)],
        ),
        (old(buf)@.len() >= cap && cap > 0 && v.1 <= old(buf)@[min_index(old(buf)@)].1)
            ==> final(buf)@ == old(buf)@ && r == Some(v),
{
    let n = buf.len();
    if n < cap {
        buf.push(v);
        return None;
    }
    if n == 0 {
        return Some(v);
    }
    let ghost s0 = buf@;
    proof {
        lemma_min_index(s0);
    }
    let mut mi: usize = 0;
    let mut j: usize = 1;
    while j < n
        invariant
            buf@ == s0,
            1 <= j <= n,
            0 <= mi < j,
            mi == min_index(s0.take(j as int)),
        decreases n - j,
    {
        proof {
            assert(s0.take(j + 1 as int).drop_last() == s0.take(j as int));
            assert(s0.take(j + 1 as int).last() == s0[j as int]);
        }
        if buf[j].1 < buf[mi].1 {
            mi = j;
        }
        j += 1;
    }
    assert(s0.take(n as int) == s0);
    if v.1 > buf[mi].1 {
        let evicted = buf[mi];
        buf[mi] = v;
        Some(evicted)
    } else {
        Some(v)
    }
}

/// A fixed-capacity top-K selector: it retains the `N` most massive
/// `(hypothesis, mass)` pairs seen so far, evicting the least massive one
/// on overflow; ties are resolved in favor of the existing occupant.
pub struct PriorityHeap<const N: usize, S: SetAlgebra> {
    buf: Vec<(S, u64)>,
}

impl<const N: usize, S: SetAlgebra> PriorityHeap<N, S> {
    /// The retained `(hypothesis, mass)` pairs, in arrival order
    /// (with in-place replacement on eviction).
    pub closed spec fn entries(self) -> Seq<(S, u64)> {
        self.buf@
    }

    /// The selector never holds more than `N` pairs.
    pub open spec fn wf(self) -> bool {
        self.entries().len() <= N
    }

    /// Insert a pair keyed by its mass, returning the pair that left the
    /// selector: `None` while it is still filling, the evicted minimum if
    /// the incoming mass is strictly larger, and the incoming pair itself
    /// if it was rejected.
    #[verifier::loop_isolation(false)]
    pub fn insert_by_key(&mut self, v: (S, u64)) -> (r: Option<(S, u64)>)
        requires
            old(self).wf(),
        ensures
            final(self).wf(),
            old(self).entries().len() < N ==> final(self).entries() == old(self).entries().push(v)
                && r is None,
            old(self).entries().len() >= N && N == 0 ==> final(self).entries() == old(
                self,
            ).entries() && r == Some(v),
            (old(self).entries().len() >= N && N > 0 && v.1 > old(self).entries()[min_index(
                old(self).entries(),
            )].1) ==> final(self).entries() == old(self).entries().update(
                min_index(old(self).entries()),
                v,
            ) && r == Some(old(self).entries()[min_index(old(self).entries())]),
            (old(self).entries().len() >= N && N > 0 && v.1 <= old(self).entries()[min_index(
                old(self).entries(),
            )].1) ==> final(self).entries() == old(self).entries() && r == Some(v),
    {
        bounded_insert(&mut self.buf, N, v)
    }

    /// Hand back the retained pairs.
    pub fn consume(self) -> (r: Vec<(S, u64)>)
        ensures
            r@ == self.entries(),
    {
        self.buf
    }
}

impl<const N: usize, S: SetAlgebra> Default for PriorityHeap<N, S> {
    /// An empty selector.
    fn default() -> (r: Self)
        ensures
            r.wf(),
            r.entries() == Seq::<(S, u64)>::empty(),
    {
        PriorityHeap { buf: Vec::new() }
    }
}

} // verus!
