//! Utilities for computing a Cartesian product over `D` dimensions.
//!
//! The product walks a mixed-radix odometer: index 0 advances fastest, and
//! a carry out of the last dimension marks the product as consumed.
use vstd::prelude::*;

verus! {

/// The odometer value of the digits at positions `idx` and above, with
/// digit `idx` least significant.
pub open spec fn rank_from(ind: Seq<usize>, len: Seq<usize>, idx: int) -> int
    decreases ind.len() - idx,
{
    if idx < 0 || idx >= ind.len() {
        0
    } else {
        ind[idx] + len[idx] * rank_from(ind, len, idx + 1)
    }
}

/// The number of odometer states for the digits at positions `idx` and
/// above.
pub open spec fn prod_from(len: Seq<usize>, idx: int) -> int
    decreases len.len() - idx,
{
    if idx < 0 || idx >= len.len() {
        1
    } else {
        len[idx] * prod_from(len, idx + 1)
    }
}

/// `rank_from` only reads digits at `idx` and above.
proof fn lemma_rank_from_congruence(a: Seq<usize>, b: Seq<usize>, len: Seq<usize>, idx: int)
    requires
        a.len() == b.len(),
        forall|t: int| idx <= t < a.len() ==> a[t] == b[t],
    ensures
        rank_from(a, len, idx) == rank_from(b, len, idx),
    decreases a.len() - idx,
{
    if 0 <= idx < a.len() {
        lemma_rank_from_congruence(a, b, len, idx + 1);
    }
}

/// An iterator-like cursor over the Cartesian product of `D` collections.
pub struct CartesianProduct<const D: usize, I> {
    items: Vec<Vec<I>>,
    lengths: Vec<usize>,
    /// The current odometer digits, one per dimension.
    pub indices: Vec<usize>,
    consumed: bool,
}

impl<const D: usize, I: Copy> CartesianProduct<D, I> {
    /// The collections whose product is walked.
    pub closed spec fn items_view(self) -> Seq<Seq<I>> {
        self.items@.map_values(|v: Vec<I>| v@)
    }

    /// The per-dimension lengths.
    pub closed spec fn lengths_view(self) -> Seq<usize> {
        self.lengths@
    }

    /// The current odometer digits.
    pub closed spec fn indices_view(self) -> Seq<usize> {
        self.indices@
    }

    /// Whether every product element has been handed out.
    pub closed spec fn consumed_view(self) -> bool {
        self.consumed
    }

    /// The cursor's dimensions agree and every digit is in range.
    pub open spec fn wf(self) -> bool {
        &&& self.items_view().len() == D
        &&& self.lengths_view().len() == D
        &&& self.indices_view().len() == D
        &&& forall|t: int|
            0 <= t < D ==> #[trigger] self.lengths_view()[t] == self.items_view()[t].len()
        &&& forall|t: int| 0 <= t < D ==> (#[trigger] self.indices_view()[t]) < self.lengths_view()[t]
        &&& forall|t: int| 0 <= t < D ==> (#[trigger] self.lengths_view()[t]) >= 1
    }

    /// Start the cursor at the first tuple.
    pub fn new(items: Vec<Vec<I>>) -> (r: Self)
        requires
            items@.len() == D,
            forall|t: int| 0 <= t < D ==> (#[trigger] items@[t])@.len() >= 1,
        ensures
            r.wf(),
            r.items_view() == items@.map_values(|v: Vec<I>| v@),
            forall|t: int| 0 <= t < D ==> (#[trigger] r.indices_view()[t]) == 0,
            !r.consumed_view(),
    {
        let indices: Vec<usize> = vec_zeroes(items.len());
        let mut lengths: Vec<usize> = Vec::new();
        let n = items.len();
        let mut t: usize = 0;
        while t < n
            invariant
                t <= n,
                n == items@.len(),
                lengths@.len() == t,
                forall|u: int| 0 <= u < t ==> #[trigger] lengths@[u] == items@[u]@.len(),
            decreases n - t,
        {
            lengths.push(items[t].len());
            t += 1;
        }
        CartesianProduct { items, lengths, indices, consumed: false }
    }

    /// Advance the odometer starting at digit `idx`, carrying upward.
    /// `Ok` means some digit advanced; `Err` means the odometer rolled all
    /// the way over, which marks the cursor consumed.
    pub fn inc(&mut self, idx: usize) -> (r: Result<(), ()>)
        requires
            old(self).wf(),
            idx <= D,
        ensures
            final(self).wf(),
            final(self).items_view() == old(self).items_view(),
            final(self).lengths_view() == old(self).lengths_view(),
            forall|t: int| 0 <= t < idx ==> final(self).indices_view()[t] == old(self).indices_view()[t],
            r is Ok ==> rank_from(final(self).indices_view(), old(self).lengths_view(), idx as int)
                == rank_from(old(self).indices_view(), old(self).lengths_view(), idx as int) + 1
                && final(self).consumed_view() == old(self).consumed_view(),
            r is Err ==> (forall|t: int| idx <= t < D ==> final(self).indices_view()[t] == 0)
                && final(self).consumed_view() && rank_from(
                old(self).indices_view(),
                old(self).lengths_view(),
                idx as int,
            ) + 1 == prod_from(old(self).lengths_view(), idx as int),
        decreases D - idx,
    {
        let ghost ind0 = self.indices_view();
        let ghost lens = self.lengths@;
        if idx < self.indices.len() {
            let cur = self.indices[idx];
            let cap = self.lengths[idx];
            if cur + 1 >= cap {
                self.indices[idx] = 0;
                let ghost ind1 = self.indices_view();
                let r = self.inc(idx + 1);
                proof {
                    assert(final(self).indices_view()[idx as int] == 0);
                    assert(rank_from(ind0, lens, idx as int) == cur + lens[idx as int] * rank_from(
                        ind0,
                        lens,
                        idx + 1,
                    ));
                    lemma_rank_from_congruence(ind0, ind1, lens, idx + 1);
                    match r {
                        Ok(_) => {
                            assert(rank_from(final(self).indices_view(), lens, idx as int) == 0
                                + lens[idx as int] * rank_from(final(self).indices_view(), lens, idx + 1));
                            assert(lens[idx as int] * (rank_from(ind0, lens, idx + 1) + 1) == lens[
                                idx as int
                            ] * rank_from(ind0, lens, idx + 1) + lens[idx as int] * 1) by (
                            nonlinear_arith);
                            assert(cur + 1 == lens[idx as int]);
                        },
                        Err(_) => {
                            assert(lens[idx as int] * (rank_from(ind0, lens, idx + 1) + 1) == lens[
                                idx as int
                            ] * rank_from(ind0, lens, idx + 1) + lens[idx as int] * 1) by (
                            nonlinear_arith);
                            assert(lens[idx as int] * prod_from(lens, idx + 1) == prod_from(
                                lens,
                                idx as int,
                            ));
                        },
                    }
                }
                r
            } else {
                self.indices[idx] = cur + 1;
                proof {
                    lemma_rank_from_congruence(ind0, self.indices_view(), lens, idx + 1);
                    assert(rank_from(self.indices_view(), lens, idx as int) == (cur + 1)
                        + lens[idx as int] * rank_from(self.indices_view(), lens, idx + 1));
                    assert(rank_from(ind0, lens, idx as int) == cur + lens[idx as int] * rank_from(
                        ind0,
                        lens,
                        idx + 1,
                    ));
                }
                Ok(())
            }
        } else {
            self.consumed = true;
            Err(())
        }
    }

    /// Hand out the tuple under the cursor and advance it; `None` once the
    /// product is consumed.
    #[verifier::loop_isolation(false)]
    pub fn next(&mut self) -> (r: Option<Vec<I>>)
        requires
            old(self).wf(),
        ensures
            final(self).wf(),
            final(self).items_view() == old(self).items_view(),
            final(self).lengths_view() == old(self).lengths_view(),
            old(self).consumed_view() ==> r is None && final(self).indices_view() == old(
                self,
            ).indices_view() && final(self).consumed_view(),
            !old(self).consumed_view() ==> r is Some && r->0@.len() == D && forall|t: int|
                0 <= t < D ==> r->0@[t] == old(self).items_view()[t][old(self).indices_view()[t] as int],
            !old(self).consumed_view() ==> (final(self).consumed_view() ==> forall|t: int|
                0 <= t < D ==> final(self).indices_view()[t] == 0),
            !old(self).consumed_view() ==> (final(self).consumed_view() ==> rank_from(
                old(self).indices_view(),
                old(self).lengths_view(),
                0,
            ) + 1 == prod_from(old(self).lengths_view(), 0)),
            !old(self).consumed_view() ==> (!final(self).consumed_view() ==> rank_from(
                final(self).indices_view(),
                old(self).lengths_view(),
                0,
            ) == rank_from(old(self).indices_view(), old(self).lengths_view(), 0) + 1),
    {
        if self.consumed {
            return None;
        }
        let mut buf: Vec<I> = Vec::new();
        let n = self.indices.len();
        let mut t: usize = 0;
        while t < n
            invariant
                t <= n,
                buf@.len() == t,
                forall|u: int|
                    0 <= u < t ==> buf@[u] == self.items_view()[u][self.indices_view()[u] as int],
            decreases n - t,
        {
            let j = self.indices[t];
            buf.push(self.items[t][j]);
            t += 1;
        }
        let _ = self.inc(0);
        Some(buf)
    }
}

/// A vector of `n` zeroes.
fn vec_zeroes(n: usize) -> (r: Vec<usize>)
    ensures
        r@.len() == n,
        forall|t: int| 0 <= t < n ==> (#[trigger] r@[t]) == 0,
{
    let mut r: Vec<usize> = Vec::new();
    let mut i: usize = 0;
    while i < n
        invariant
            i <= n,
            r@.len() == i,
            forall|t: int| 0 <= t < i ==> (#[trigger] r@[t]) == 0,
        decreases n - i,
    {
        r.push(0);
        i += 1;
    }
    r
}

} // verus!
