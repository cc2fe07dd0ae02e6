//! Approximation schemes within Dempster-Shafer theory: reduce an
//! arbitrarily large mass assignment to at most `N` focal elements.
//!
//! *Top-N* (`KX`) keeps the `N` most massive focal elements and rescales
//! them so the retained mass sums to one unit. *Summarize* keeps the
//! `N - 1` most massive focal elements and merges everything it discards
//! into one residual focal element (the union of the discarded hypotheses,
//! carrying their summed mass) in the last slot, preserving total mass
//! exactly.
use vstd::prelude::*;
use vstd::assert_multisets_equal;
use vstd::multiset::Multiset;

use crate::container::{PriorityHeap, bounded_insert, min_index, lemma_min_index};
use crate::mass::{
    UNIT,
    somes,
    sum_pairs,
    sum_slots,
    lemma_sum_pairs_nonneg,
    lemma_sum_pairs_bounds_each,
};
use crate::set::SetAlgebra;

verus! {

/// `retained` and `dropped` split `bba` so that `retained` holds the
/// `cap` largest masses (all of `bba` if it is smaller) and every retained
/// mass is at least every dropped mass.
pub open spec fn is_selection<S>(
    bba: Seq<(S, u64)>,
    cap: nat,
    retained: Seq<(S, u64)>,
    dropped: Seq<(S, u64)>,
) -> bool {
    &&& retained.to_multiset().add(dropped.to_multiset()) == bba.to_multiset()
    &&& retained.len() == if bba.len() <= cap {
        bba.len() as int
    } else {
        cap as int
    }
    &&& sum_pairs(retained) + sum_pairs(dropped) == sum_pairs(bba)
    &&& forall|i: int, j: int|
        0 <= i < retained.len() && 0 <= j < dropped.len() ==> #[trigger] retained[i].1
            >= #[trigger] dropped[j].1
}

/// Every mass multiplied by `UNIT / t` (rounding toward zero).
pub open spec fn scaled<S>(s: Seq<(S, u64)>, t: int) -> Seq<(S, u64)> {
    s.map_values(|p: (S, u64)| (p.0, ((p.1 as int) * (UNIT as int) / t) as u64))
}

/// Each retained mass rescaled by `UNIT / total-retained-mass` (rounding
/// toward zero), with the mass lost to rounding assigned to the first
/// element so that the rescaled masses sum to exactly one unit; the
/// identity when nothing was retained or all retained masses are zero.
pub open spec fn rescale<S>(s: Seq<(S, u64)>) -> Seq<(S, u64)> {
    let total = sum_pairs(s);
    if total > 0 {
        let base = scaled(s, total);
        let deficit = (UNIT as int) - sum_pairs(base);
        base.update(0, (base[0].0, (base[0].1 + deficit) as u64))
    } else {
        s
    }
}

/// Rescaling is exact: whenever there is any retained mass, the rescaled
/// masses sum to exactly one unit.
pub proof fn lemma_rescale_exact<S>(s: Seq<(S, u64)>)
    requires
        sum_pairs(s) > 0,
    ensures
        rescale(s).len() == s.len(),
        sum_pairs(rescale(s)) == UNIT,
{
    let total = sum_pairs(s);
    if s.len() == 0 {
        assert(false);
    }
    assert forall|i: int| 0 <= i < s.len() implies #[trigger] s[i].1 <= total by {
        lemma_sum_pairs_bounds_each(s, i);
    }
    lemma_scaled_sum_bounds(s, total);
    let base = scaled(s, total);
    assert(total * sum_pairs(base) <= total * UNIT) by {
        vstd::arithmetic::mul::lemma_mul_is_commutative(total, UNIT as int);
        vstd::arithmetic::mul::lemma_mul_is_commutative(sum_pairs(s), UNIT as int);
    }
    assert(sum_pairs(base) <= UNIT) by (nonlinear_arith)
        requires
            total > 0,
            total * sum_pairs(base) <= total * UNIT,
    ;
    lemma_sum_pairs_nonneg(base);
    lemma_sum_pairs_bounds_each(base, 0);
    let deficit = (UNIT as int) - sum_pairs(base);
    assert(0 <= base[0].1 + deficit <= UNIT);
    crate::mass::lemma_sum_replace(base, 0, (base[0].0, (base[0].1 + deficit) as u64));
}

/// The union of all hypotheses in `s`, folded left starting from the
/// empty set.
pub open spec fn fold_cup<S: SetAlgebra>(s: Seq<(S, u64)>) -> S
    decreases s.len(),
{
    if s.len() == 0 {
        S::empty_spec()
    } else {
        fold_cup(s.drop_last()).cup_spec(s.last().0)
    }
}

/// An approximation strategy: reduce a mass assignment to a bounded
/// assignment of exactly `N` slots.
pub trait Approximation<S: SetAlgebra>: Sized {
    /// Exactly how this strategy's output relates to its input.
    spec fn approx_post(bba: Seq<(S, u64)>, n: nat, r: Seq<Option<(S, u64)>>) -> bool;

    /// Bound `bba` to `N` focal elements.
    fn approx<const N: usize>(bba: &Vec<(S, u64)>) -> (r: Vec<Option<(S, u64)>>)
        requires
            sum_pairs(bba@) <= u64::MAX,
        ensures
            r@.len() == N,
            Self::approx_post(bba@, N as nat, r@),
            sum_pairs(bba@) <= UNIT ==> sum_slots(r@) <= UNIT,
    ;
}

/// Top-N approximation: keep the `N` largest masses, then renormalize.
pub struct KX();

/// Summarize approximation: keep the `N - 1` largest masses and merge the
/// rest into a residual focal element in the last slot.
pub struct Summarize();

impl<S: SetAlgebra> Approximation<S> for KX {
    /// The occupied slots of the output are exactly the `n` most massive
    /// input elements, rescaled so their masses sum to (almost) one unit;
    /// unoccupied slots trail them.
    open spec fn approx_post(bba: Seq<(S, u64)>, n: nat, r: Seq<Option<(S, u64)>>) -> bool {
        exists|retained: Seq<(S, u64)>, dropped: Seq<(S, u64)>|
            {
                &&& #[trigger] is_selection(bba, n, retained, dropped)
                &&& somes(r) == rescale(retained)
                &&& forall|i: int| 0 <= i < r.len() ==> ((r[i] is Some) <==> i < retained.len())
            }
    }

    #[verifier::loop_isolation(false)]
    fn approx<const N: usize>(bba: &Vec<(S, u64)>) -> (r: Vec<Option<(S, u64)>>) {
        broadcast use vstd::seq_lib::group_to_multiset_ensures;
        broadcast use vstd::multiset::group_multiset_axioms;
        broadcast use vstd::multiset::group_multiset_properties;

        let mut heap: PriorityHeap<N, S> = PriorityHeap::default();
        let ghost mut dropped: Seq<(S, u64)> = Seq::empty();
        let n_in = bba.len();
        let mut i: usize = 0;
        proof {
            assert(bba@.take(0) =~= Seq::<(S, u64)>::empty());
            assert_multisets_equal!(
                heap.entries().to_multiset().add(dropped.to_multiset()),
                bba@.take(0).to_multiset(),
                a => {
                    assert(!heap.entries().contains(a));
                    assert(!dropped.contains(a));
                    assert(!bba@.take(0).contains(a));
                }
            );
        }
        while i < n_in
            invariant
                heap.wf(),
                i <= n_in,
                heap.entries().len() == if i <= N {
                    i as int
                } else {
                    N as int
                },
                heap.entries().to_multiset().add(dropped.to_multiset()) == bba@.take(
                    i as int,
                ).to_multiset(),
                sum_pairs(heap.entries()) + sum_pairs(dropped) == sum_pairs(bba@.take(i as int)),
                forall|a: int, b: int|
                    0 <= a < heap.entries().len() && 0 <= b < dropped.len()
                        ==> #[trigger] heap.entries()[a].1 >= #[trigger] dropped[b].1,
            decreases n_in - i,
        {
            let v = bba[i];
            let ghost h0 = heap.entries();
            let ghost d0 = dropped;
            proof {
                assert(bba@.take(i + 1 as int) =~= bba@.take(i as int).push(v));
                assert(bba@.take(i + 1 as int).drop_last() =~= bba@.take(i as int));
                assert(bba@.take(i + 1 as int).last() == v);
                vstd::seq_lib::to_multiset_build(bba@.take(i as int), v);
                assert(bba@.take(i as int).to_multiset().len() == i);
                assert(h0.to_multiset().len() == h0.len());
                assert(d0.to_multiset().len() == d0.len());
                assert(h0.len() + d0.len() == i);
                if h0.len() >= N && N > 0 {
                    lemma_min_index(h0);
                }
            }
            let evicted = heap.insert_by_key(v);
            proof {
                match evicted {
                    None => {
                        vstd::seq_lib::to_multiset_build(h0, v);
                        assert(heap.entries().to_multiset().add(dropped.to_multiset())
                            =~= bba@.take(i + 1 as int).to_multiset());
                        assert(heap.entries().drop_last() == h0);
                        assert(d0.len() == 0);
                    },
                    Some(d) => {
                        dropped = dropped.push(d);
                        vstd::seq_lib::to_multiset_build(d0, d);
                        if N == 0 {
                            assert(heap.entries() == h0);
                            assert_multisets_equal!(
                                heap.entries().to_multiset().add(dropped.to_multiset()),
                                bba@.take(i + 1 as int).to_multiset()
                            );
                            assert(dropped.drop_last() == d0);
                        } else if v.1 > h0[min_index(h0)].1 {
                            let mi = min_index(h0);
                            // the stored minimum was evicted and `v` took its place
                            lemma_to_multiset_update(h0, mi, v);
                            assert(h0.contains(h0[mi]));
                            assert(h0.to_multiset().count(h0[mi]) > 0);
                            assert_multisets_equal!(
                                heap.entries().to_multiset().add(dropped.to_multiset()),
                                bba@.take(i + 1 as int).to_multiset()
                            );
                            crate::mass::lemma_sum_replace(h0, mi, v);
                            assert(dropped.drop_last() == d0);
                            assert forall|a: int, b: int|
                                0 <= a < heap.entries().len() && 0 <= b < dropped.len() implies
                                #[trigger] heap.entries()[a].1 >= #[trigger] dropped[b].1 by {
                                assert(heap.entries()[mi] == v);
                                if b < d0.len() {
                                    assert(dropped[b] == d0[b]);
                                    if a != mi {
                                        assert(heap.entries()[a] == h0[a]);
                                        assert(h0[a].1 >= d0[b].1);
                                    } else {
                                        assert(h0[mi].1 >= d0[b].1);
                                    }
                                } else {
                                    assert(dropped[b] == h0[mi]);
                                    if a != mi {
                                        assert(heap.entries()[a] == h0[a]);
                                        assert(h0[min_index(h0)].1 <= h0[a].1);
                                    }
                                }
                            }
                        } else {
                            // `v` itself was rejected
                            assert(heap.entries() == h0);
                            assert_multisets_equal!(
                                heap.entries().to_multiset().add(dropped.to_multiset()),
                                bba@.take(i + 1 as int).to_multiset()
                            );
                            assert(dropped.drop_last() == d0);
                            assert forall|a: int, b: int|
                                0 <= a < heap.entries().len() && 0 <= b < dropped.len() implies
                                #[trigger] heap.entries()[a].1 >= #[trigger] dropped[b].1 by {
                                if b < d0.len() {
                                    assert(dropped[b] == d0[b]);
                                } else {
                                    assert(dropped[b] == v);
                                    assert(h0[min_index(h0)].1 <= h0[a].1);
                                }
                            }
                        }
                    },
                }
            }
            i += 1;
        }
        proof {
            assert(bba@.take(n_in as int) =~= bba@);
        }
        let kept = heap.consume();
        let k = kept.len();
        // total retained mass, the rescaling denominator
        let mut total: u64 = 0;
        let mut j: usize = 0;
        proof {
            assert(kept@.take(0) =~= Seq::<(S, u64)>::empty());
            lemma_sum_pairs_nonneg(dropped);
            lemma_sum_pairs_nonneg(kept@);
        }
        while j < k
            invariant
                j <= k,
                total == sum_pairs(kept@.take(j as int)),
            decreases k - j,
        {
            proof {
                assert(kept@.take(j + 1 as int).drop_last() =~= kept@.take(j as int));
                assert(kept@.take(j + 1 as int).last() == kept@[j as int]);
                lemma_sum_take_le(kept@, j + 1 as int);
                lemma_sum_pairs_nonneg(kept@.take(j as int));
            }
            total = total + kept[j].1;
            j += 1;
        }
        proof {
            assert(kept@.take(k as int) =~= kept@);
        }
        // rescale the retained elements into the output slots
        let ghost base = if (total as int) > 0 {
            scaled(kept@, total as int)
        } else {
            kept@
        };
        let mut out: Vec<Option<(S, u64)>> = Vec::new();
        let mut out_sum: u64 = 0;
        let mut j: usize = 0;
        while j < k
            invariant
                j <= k,
                out@.len() == j,
                forall|t: int| 0 <= t < j ==> out@[t] == Some(base[t]),
                forall|t: int| 0 <= t < j ==> out@[t] is Some,
                out_sum == sum_slots(out@),
                total > 0 ==> (total as int) * sum_slots(out@) <= sum_pairs(kept@.take(j as int))
                    * UNIT,
                total == 0 ==> sum_slots(out@) == 0,
            decreases k - j,
        {
            let (hyp, m) = kept[j];
            proof {
                lemma_sum_pairs_nonneg(kept@);
                lemma_sum_pairs_bounds_each(kept@, j as int);
            }
            let m2 = if total > 0 {
                proof {
                    lemma_scaled_le_unit(m as int, total as int);
                }
                (((m as u128) * (UNIT as u128)) / (total as u128)) as u64
            } else {
                m
            };
            proof {
                assert(out@.push(Some((hyp, m2))).drop_last() == out@);
                if total > 0 {
                    assert(base[j as int] == (
                        kept@[j as int].0,
                        ((kept@[j as int].1 as int) * (UNIT as int) / (sum_pairs(kept@))) as u64,
                    ));
                    assert((m as u128) * (UNIT as u128) == (m as int) * (UNIT as int));
                    lemma_scale_sum_step(
                        total as int,
                        sum_slots(out@),
                        m as int,
                        sum_pairs(kept@.take(j as int)),
                    );
                    assert(kept@.take(j + 1 as int).drop_last() =~= kept@.take(j as int));
                    assert(kept@.take(j + 1 as int).last() == kept@[j as int]);
                    // the running total stays within one unit, so the sum fits
                    lemma_sum_take_le(kept@, j + 1 as int);
                    assert(sum_pairs(kept@.take(j + 1 as int)) * UNIT <= (total as int) * (
                    UNIT as int)) by {
                        vstd::arithmetic::mul::lemma_mul_inequality(
                            sum_pairs(kept@.take(j + 1 as int)),
                            total as int,
                            UNIT as int,
                        );
                    }
                    assert(sum_slots(out@) + m2 <= UNIT) by (nonlinear_arith)
                        requires
                            total > 0,
                            (total as int) * (sum_slots(out@) + m2) <= (total as int) * (
                            UNIT as int),
                    ;
                } else {
                    assert(m == 0);
                    assert(base[j as int] == kept@[j as int]);
                }
            }
            out.push(Some((hyp, m2)));
            out_sum = out_sum + m2;
            j += 1;
        }
        proof {
            assert(kept@.take(k as int) =~= kept@);
        }
        // assign the mass lost to rounding to the first retained element,
        // so the rescaled masses sum to exactly one unit
        if total > 0 {
            proof {
                if k == 0 {
                    assert(kept@ =~= Seq::<(S, u64)>::empty());
                }
                assert(k >= 1);
                assert forall|t: int| 0 <= t < out@.len() implies ((out@[t] is Some) <==> t
                    < k) by {}
                lemma_somes_prefix(out@, k as int);
                crate::mass::lemma_sum_slots_somes(out@);
                assert(somes(out@) =~= base);
                assert(sum_pairs(base) == sum_slots(out@));
                assert((total as int) * sum_slots(out@) <= (total as int) * (UNIT as int)) by {
                    vstd::arithmetic::mul::lemma_mul_inequality(
                        sum_pairs(kept@),
                        total as int,
                        UNIT as int,
                    );
                }
                assert(sum_slots(out@) <= UNIT) by (nonlinear_arith)
                    requires
                        total > 0,
                        (total as int) * sum_slots(out@) <= (total as int) * (UNIT as int),
                ;
                crate::mass::lemma_sum_slots_bounds_each(out@, 0);
            }
            let deficit = UNIT - out_sum;
            let ghost pre_patch = out@;
            let p = out[0].unwrap();
            out[0] = Some((p.0, p.1 + deficit));
            proof {
                assert(p == base[0]);
                crate::mass::lemma_sum_slots_replace(
                    pre_patch,
                    0,
                    Some((p.0, (p.1 + deficit) as u64)),
                );
                assert(sum_slots(out@) == UNIT);
                assert(rescale(kept@) == base.update(
                    0,
                    (base[0].0, (base[0].1 + ((UNIT as int) - sum_pairs(base))) as u64),
                ));
                assert(out@[0] == Some(rescale(kept@)[0]));
                assert forall|t: int| 0 <= t < k implies out@[t] == Some(rescale(kept@)[t]) by {
                    if t > 0 {
                        assert(out@[t] == pre_patch[t]);
                        assert(rescale(kept@)[t] == base[t]);
                    }
                }
            }
        } else {
            proof {
                assert(rescale(kept@) == kept@);
                assert(forall|t: int| 0 <= t < k ==> out@[t] == Some(rescale(kept@)[t]));
            }
        }
        proof {
            assert(sum_slots(out@) <= UNIT);
        }
        let ghost out_full = out@;
        while out.len() < N
            invariant
                out@.len() >= out_full.len(),
                out@.len() <= N,
                out@.take(out_full.len() as int) == out_full,
                forall|t: int| out_full.len() <= t < out@.len() ==> out@[t] is None,
                k <= out@.len(),
                sum_slots(out@) == sum_slots(out_full),
            decreases N - out@.len(),
        {
            proof {
                assert(out@.push(None).drop_last() == out@);
            }
            out.push(None);
        }
        proof {
            assert forall|t: int| 0 <= t < out@.len() implies ((out@[t] is Some) <==> t < k) by {
                if t < k {
                    assert(out@.take(out_full.len() as int)[t] == out_full[t]);
                }
            }
            lemma_somes_prefix(out@, k as int);
            assert forall|t: int| 0 <= t < k implies out@[t] == Some(rescale(kept@)[t]) by {
                assert(out@.take(out_full.len() as int)[t] == out_full[t]);
            }
            assert(somes(out@) =~= rescale(kept@));
            assert(is_selection(bba@, N as nat, kept@, dropped));
            assert forall|t: int| 0 <= t < out@.len() implies ((out@[t] is Some) <==> t
                < kept@.len()) by {
                if t < k {
                    assert(out@.take(out_full.len() as int)[t] == out_full[t]);
                }
            }
        }
        out
    }
}

impl<S: SetAlgebra> Approximation<S> for Summarize {
    /// Slots `0 .. n-1` hold the `n - 1` most massive input elements
    /// (trailed by unoccupied slots when fewer exist); the last slot holds
    /// the residual: the union of every discarded hypothesis, carrying
    /// their summed mass. Total mass is preserved exactly.
    open spec fn approx_post(bba: Seq<(S, u64)>, n: nat, r: Seq<Option<(S, u64)>>) -> bool {
        if n == 0 {
            r == Seq::<Option<(S, u64)>>::empty()
        } else {
            exists|retained: Seq<(S, u64)>, dropped: Seq<(S, u64)>|
                {
                    &&& #[trigger] is_selection(bba, (n - 1) as nat, retained, dropped)
                    &&& r.len() == n
                    &&& forall|j: int| 0 <= j < retained.len() ==> r[j] == Some(retained[j])
                    &&& forall|j: int| retained.len() <= j < n - 1 ==> r[j] is None
                    &&& r[n - 1] == Some((fold_cup(dropped), sum_pairs(dropped) as u64))
                }
        }
    }

    #[verifier::loop_isolation(false)]
    fn approx<const N: usize>(bba: &Vec<(S, u64)>) -> (r: Vec<Option<(S, u64)>>) {
        broadcast use vstd::seq_lib::group_to_multiset_ensures;
        broadcast use vstd::multiset::group_multiset_axioms;
        broadcast use vstd::multiset::group_multiset_properties;

        let cap: usize = if N == 0 {
            0
        } else {
            N - 1
        };
        let mut kept: Vec<(S, u64)> = Vec::new();
        let mut res_set: S = S::empty();
        let mut res_mass: u64 = 0;
        let ghost mut dropped: Seq<(S, u64)> = Seq::empty();
        let n_in = bba.len();
        let mut i: usize = 0;
        proof {
            assert(bba@.take(0) =~= Seq::<(S, u64)>::empty());
            assert_multisets_equal!(
                kept@.to_multiset().add(dropped.to_multiset()),
                bba@.take(0).to_multiset(),
                a => {
                    assert(!kept@.contains(a));
                    assert(!dropped.contains(a));
                    assert(!bba@.take(0).contains(a));
                }
            );
        }
        while i < n_in
            invariant
                kept@.len() <= cap,
                i <= n_in,
                kept@.len() == if i <= cap {
                    i as int
                } else {
                    cap as int
                },
                kept@.to_multiset().add(dropped.to_multiset()) == bba@.take(i as int).to_multiset(),
                sum_pairs(kept@) + sum_pairs(dropped) == sum_pairs(bba@.take(i as int)),
                forall|a: int, b: int|
                    0 <= a < kept@.len() && 0 <= b < dropped.len() ==> #[trigger] kept@[a].1
                        >= #[trigger] dropped[b].1,
                res_set == fold_cup(dropped),
                res_mass == sum_pairs(dropped),
            decreases n_in - i,
        {
            let v = bba[i];
            let ghost k0 = kept@;
            let ghost d0 = dropped;
            proof {
                assert(bba@.take(i + 1 as int) =~= bba@.take(i as int).push(v));
                assert(bba@.take(i + 1 as int).drop_last() =~= bba@.take(i as int));
                assert(bba@.take(i + 1 as int).last() == v);
                vstd::seq_lib::to_multiset_build(bba@.take(i as int), v);
                assert(bba@.take(i as int).to_multiset().len() == i);
                assert(k0.to_multiset().len() == k0.len());
                assert(d0.to_multiset().len() == d0.len());
                assert(k0.len() + d0.len() == i);
                if k0.len() >= cap && cap > 0 {
                    lemma_min_index(k0);
                }
            }
            let evicted = bounded_insert(&mut kept, cap, v);
            match evicted {
                None => {
                    proof {
                        vstd::seq_lib::to_multiset_build(k0, v);
                        assert(kept@.to_multiset().add(dropped.to_multiset()) =~= bba@.take(
                            i + 1 as int,
                        ).to_multiset());
                        assert(kept@.drop_last() == k0);
                        assert(d0.len() == 0);
                    }
                },
                Some(d) => {
                    proof {
                        dropped = dropped.push(d);
                        vstd::seq_lib::to_multiset_build(d0, d);
                        if cap == 0 {
                            assert(kept@ == k0);
                            assert_multisets_equal!(
                                kept@.to_multiset().add(dropped.to_multiset()),
                                bba@.take(i + 1 as int).to_multiset()
                            );
                            assert(dropped.drop_last() == d0);
                        } else if v.1 > k0[min_index(k0)].1 {
                            let mi = min_index(k0);
                            lemma_to_multiset_update(k0, mi, v);
                            assert(k0.contains(k0[mi]));
                            assert(k0.to_multiset().count(k0[mi]) > 0);
                            assert_multisets_equal!(
                                kept@.to_multiset().add(dropped.to_multiset()),
                                bba@.take(i + 1 as int).to_multiset()
                            );
                            crate::mass::lemma_sum_replace(k0, mi, v);
                            assert(dropped.drop_last() == d0);
                            assert forall|a: int, b: int|
                                0 <= a < kept@.len() && 0 <= b < dropped.len() implies
                                #[trigger] kept@[a].1 >= #[trigger] dropped[b].1 by {
                                assert(kept@[mi] == v);
                                if b < d0.len() {
                                    assert(dropped[b] == d0[b]);
                                    if a != mi {
                                        assert(kept@[a] == k0[a]);
                                        assert(k0[a].1 >= d0[b].1);
                                    } else {
                                        assert(k0[mi].1 >= d0[b].1);
                                    }
                                } else {
                                    assert(dropped[b] == k0[mi]);
                                    if a != mi {
                                        assert(kept@[a] == k0[a]);
                                        assert(k0[min_index(k0)].1 <= k0[a].1);
                                    }
                                }
                            }
                        } else {
                            assert(kept@ == k0);
                            assert_multisets_equal!(
                                kept@.to_multiset().add(dropped.to_multiset()),
                                bba@.take(i + 1 as int).to_multiset()
                            );
                            assert(dropped.drop_last() == d0);
                            assert forall|a: int, b: int|
                                0 <= a < kept@.len() && 0 <= b < dropped.len() implies
                                #[trigger] kept@[a].1 >= #[trigger] dropped[b].1 by {
                                if b < d0.len() {
                                    assert(dropped[b] == d0[b]);
                                } else {
                                    assert(dropped[b] == v);
                                    assert(k0[min_index(k0)].1 <= k0[a].1);
                                }
                            }
                        }
                        // the displaced mass still fits in the residual
                        lemma_sum_take_le(bba@, i + 1 as int);
                        lemma_sum_pairs_nonneg(kept@);
                        assert(dropped.drop_last() == d0);
                        assert(sum_pairs(dropped) == sum_pairs(d0) + d.1);
                    }
                    res_set = S::cup(&res_set, &d.0);
                    res_mass = res_mass + d.1;
                    proof {
                        assert(fold_cup(dropped) == fold_cup(d0).cup_spec(d.0));
                    }
                },
            }
            i += 1;
        }
        proof {
            assert(bba@.take(n_in as int) =~= bba@);
        }
        let k = kept.len();
        let mut out: Vec<Option<(S, u64)>> = Vec::new();
        let mut j: usize = 0;
        proof {
            assert(kept@.take(0) =~= Seq::<(S, u64)>::empty());
        }
        while j < k
            invariant
                j <= k,
                out@.len() == j,
                forall|t: int| 0 <= t < j ==> out@[t] == Some(kept@[t]),
                sum_slots(out@) == sum_pairs(kept@.take(j as int)),
            decreases k - j,
        {
            proof {
                assert(out@.push(Some(kept@[j as int])).drop_last() == out@);
                assert(kept@.take(j + 1 as int).drop_last() =~= kept@.take(j as int));
                assert(kept@.take(j + 1 as int).last() == kept@[j as int]);
            }
            out.push(Some(kept[j]));
            j += 1;
        }
        proof {
            assert(kept@.take(k as int) =~= kept@);
        }
        if N > 0 {
            let ghost out_full = out@;
            while out.len() < N - 1
                invariant
                    out@.len() >= out_full.len(),
                    out@.len() <= N - 1,
                    out@.take(out_full.len() as int) == out_full,
                    forall|t: int| out_full.len() <= t < out@.len() ==> out@[t] is None,
                    k <= out@.len(),
                    sum_slots(out@) == sum_pairs(kept@),
                decreases N - out@.len(),
            {
                proof {
                    assert(out@.push(None).drop_last() == out@);
                }
                out.push(None);
            }
            proof {
                assert(out@.push(Some((res_set, res_mass))).drop_last() == out@);
            }
            out.push(Some((res_set, res_mass)));
            proof {
                assert forall|t: int| 0 <= t < k implies out@[t] == Some(kept@[t]) by {
                    assert(out@.drop_last().take(out_full.len() as int)[t] == out_full[t]);
                }
                assert forall|t: int| k <= t < N - 1 implies out@[t] is None by {
                    assert(out@.drop_last()[t] is None);
                }
                assert(is_selection(bba@, (N - 1) as nat, kept@, dropped));
                assert(out@[N - 1] == Some((fold_cup(dropped), sum_pairs(dropped) as u64)));
                assert(sum_slots(out@) == sum_pairs(bba@));
                assert({
                    &&& is_selection(bba@, (N - 1) as nat, kept@, dropped)
                    &&& out@.len() == N as int
                    &&& forall|j: int| 0 <= j < kept@.len() ==> out@[j] == Some(kept@[j])
                    &&& forall|j: int| kept@.len() <= j < N - 1 ==> out@[j] is None
                    &&& out@[N - 1] == Some((fold_cup(dropped), sum_pairs(dropped) as u64))
                });
            }
        } else {
            proof {
                assert(out@ =~= Seq::<Option<(S, u64)>>::empty());
            }
        }
        out
    }
}

/// One rescaling step keeps the scaled running total below the exact one.
proof fn lemma_scale_sum_step(total: int, acc: int, m: int, prefix: int)
    requires
        total > 0,
        0 <= m,
        total * acc <= prefix * UNIT,
    ensures
        total * (acc + m * (UNIT as int) / total) <= (prefix + m) * UNIT,
{
    vstd::arithmetic::div_mod::lemma_fundamental_div_mod(m * (UNIT as int), total);
    vstd::arithmetic::div_mod::lemma_mod_division_less_than_divisor(m * (UNIT as int), total);
    vstd::arithmetic::mul::lemma_mul_nonnegative(m, UNIT as int);
    assert(total * (m * (UNIT as int) / total) <= m * (UNIT as int)) by (nonlinear_arith)
        requires
            total > 0,
            m * (UNIT as int) == total * (m * (UNIT as int) / total) + (m * (UNIT as int)) % total,
            0 <= (m * (UNIT as int)) % total,
    ;
    assert(total * (acc + m * (UNIT as int) / total) == total * acc + total * (m * (
    UNIT as int) / total)) by {
        vstd::arithmetic::mul::lemma_mul_is_distributive_add(
            total,
            acc,
            m * (UNIT as int) / total,
        );
    }
    assert((prefix + m) * UNIT == prefix * UNIT + m * UNIT) by {
        vstd::arithmetic::mul::lemma_mul_is_distributive_add_other_way(
            UNIT as int,
            prefix,
            m,
        );
    }
}

/// A mass below the total scales to at most one unit.
pub proof fn lemma_scaled_le_unit(m: int, total: int)
    requires
        0 <= m <= total,
        total > 0,
    ensures
        m * (UNIT as int) / total <= UNIT,
{
    vstd::arithmetic::mul::lemma_mul_inequality(m, total, UNIT as int);
    vstd::arithmetic::div_mod::lemma_div_multiples_vanish(UNIT as int, total);
    vstd::arithmetic::div_mod::lemma_div_is_ordered(
        m * (UNIT as int),
        total * (UNIT as int),
        total,
    );
    vstd::arithmetic::mul::lemma_mul_is_commutative(total, UNIT as int);
}

/// Partial sums never exceed the whole.
proof fn lemma_sum_take_le<S>(s: Seq<(S, u64)>, j: int)
    requires
        0 <= j <= s.len(),
    ensures
        sum_pairs(s.take(j)) <= sum_pairs(s),
    decreases s.len() - j,
{
    if j < s.len() {
        lemma_sum_take_le(s, j + 1);
        assert(s.take(j + 1).drop_last() =~= s.take(j));
        assert(s.take(j + 1).last() == s[j]);
    } else {
        assert(s.take(j) =~= s);
    }
}

/// `somes` of a sequence whose `Some` slots form a prefix of length `k`
/// is exactly the payloads of that prefix.
proof fn lemma_somes_prefix<T>(s: Seq<Option<T>>, k: int)
    requires
        0 <= k <= s.len(),
        forall|i: int| 0 <= i < s.len() ==> ((s[i] is Some) <==> i < k),
    ensures
        somes(s).len() == k,
        forall|i: int| 0 <= i < k ==> somes(s)[i] == s[i]->Some_0,
    decreases s.len(),
{
    if s.len() > 0 {
        assert(forall|i: int| 0 <= i < s.len() - 1 ==> s.drop_last()[i] == s[i]);
        if s.last() is Some {
            assert(k == s.len());
            lemma_somes_prefix(s.drop_last(), k - 1);
        } else {
            lemma_somes_prefix(s.drop_last(), k);
        }
    }
}

/// Replacing one element exchanges it in the sequence's multiset.
proof fn lemma_to_multiset_update<A>(s: Seq<A>, i: int, v: A)
    requires
        0 <= i < s.len(),
    ensures
        s.update(i, v).to_multiset() == s.to_multiset().remove(s[i]).insert(v),
    decreases s.len(),
{
    broadcast use vstd::seq_lib::group_to_multiset_ensures;

    let u = s.update(i, v);
    assert(u.remove(i) =~= s.remove(i));
    assert(u.remove(i).to_multiset() =~= u.to_multiset().remove(v)) by {
        assert(u[i] == v);
    }
    assert(s.remove(i).to_multiset() =~= s.to_multiset().remove(s[i]));
    assert(u.to_multiset().contains(v)) by {
        assert(u[i] == v);
        assert(u.contains(v));
    }
    assert(s.to_multiset().contains(s[i])) by {
        assert(s.contains(s[i]));
    }
    assert_multisets_equal!(u.to_multiset(), s.to_multiset().remove(s[i]).insert(v), a => {
        if a == v {
            assert(u.to_multiset().remove(v).count(v) == u.to_multiset().count(v) - 1);
        }
    });
}

/// Bounds on the total of a scaled mass sequence: dividing each term by
/// `t` loses strictly less than one micro-unit per element.
pub proof fn lemma_scaled_sum_bounds<S>(s: Seq<(S, u64)>, t: int)
    requires
        t > 0,
        forall|i: int| 0 <= i < s.len() ==> #[trigger] s[i].1 <= t,
    ensures
        t * sum_pairs(scaled(s, t)) <= sum_pairs(s) * UNIT,
        t * sum_pairs(scaled(s, t)) >= sum_pairs(s) * UNIT - s.len() * t,
    decreases s.len(),
{
    if s.len() == 0 {
        assert(scaled(s, t) =~= Seq::<(S, u64)>::empty());
        assert(sum_pairs(scaled(s, t)) == 0);
        assert(t * 0 == 0) by (nonlinear_arith);
        assert(sum_pairs(s) * UNIT == 0) by (nonlinear_arith)
            requires
                sum_pairs(s) == 0,
        ;
    } else {
        assert(forall|i: int| 0 <= i < s.len() - 1 ==> s.drop_last()[i] == s[i]);
        lemma_scaled_sum_bounds(s.drop_last(), t);
        let m = s.last().1 as int;
        let q = m * (UNIT as int) / t;
        assert(scaled(s, t).drop_last() =~= scaled(s.drop_last(), t));
        assert(scaled(s, t).last() == (s.last().0, q as u64));
        vstd::arithmetic::div_mod::lemma_fundamental_div_mod(m * (UNIT as int), t);
        vstd::arithmetic::div_mod::lemma_mod_division_less_than_divisor(m * (UNIT as int), t);
        vstd::arithmetic::mul::lemma_mul_nonnegative(m, UNIT as int);
        vstd::arithmetic::div_mod::lemma_div_pos_is_pos(m * (UNIT as int), t);
        assert(q as u64 as int == q) by {
            assert(m <= t);
            lemma_scaled_le_unit(m, t);
        }
        assert(t * (m * (UNIT as int) / t) <= m * (UNIT as int)) by (nonlinear_arith)
            requires
                t > 0,
                m * (UNIT as int) == t * (m * (UNIT as int) / t) + (m * (UNIT as int)) % t,
                0 <= (m * (UNIT as int)) % t,
        ;
        assert(t * (m * (UNIT as int) / t) > m * (UNIT as int) - t) by (nonlinear_arith)
            requires
                t > 0,
                m * (UNIT as int) == t * (m * (UNIT as int) / t) + (m * (UNIT as int)) % t,
                (m * (UNIT as int)) % t < t,
        ;
        assert(sum_pairs(scaled(s, t)) == sum_pairs(scaled(s.drop_last(), t)) + q);
        assert(t * sum_pairs(scaled(s, t)) <= sum_pairs(s) * UNIT) by (nonlinear_arith)
            requires
                sum_pairs(scaled(s, t)) == sum_pairs(scaled(s.drop_last(), t)) + q,
                sum_pairs(s) == sum_pairs(s.drop_last()) + m,
                t * sum_pairs(scaled(s.drop_last(), t)) <= sum_pairs(s.drop_last()) * UNIT,
                t * q <= m * (UNIT as int),
        ;
        assert(t * sum_pairs(scaled(s, t)) >= sum_pairs(s) * UNIT - s.len() * t) by (
        nonlinear_arith)
            requires
                sum_pairs(scaled(s, t)) == sum_pairs(scaled(s.drop_last(), t)) + q,
                sum_pairs(s) == sum_pairs(s.drop_last()) + m,
                s.len() == s.drop_last().len() + 1,
                t * sum_pairs(scaled(s.drop_last(), t)) >= sum_pairs(s.drop_last()) * UNIT
                    - s.drop_last().len() * t,
                t * q > m * (UNIT as int) - t,
        ;
    }
}

/// Mass conservation for Top-N: when the input masses sum to one unit and
/// the bound is at least one, the rescaled output total is exactly one
/// unit.
pub proof fn lemma_kx_mass_conservation<S: SetAlgebra>(
    bba: Seq<(S, u64)>,
    n: nat,
    r: Seq<Option<(S, u64)>>,
)
    requires
        <KX as Approximation<S>>::approx_post(bba, n, r),
        sum_pairs(bba) == UNIT,
        n >= 1,
    ensures
        sum_slots(r) == UNIT,
{
    broadcast use vstd::seq_lib::group_to_multiset_ensures;
    broadcast use vstd::multiset::group_multiset_axioms;

    let (retained, dropped) = choose|retained: Seq<(S, u64)>, dropped: Seq<(S, u64)>|
        {
            &&& #[trigger] is_selection(bba, n, retained, dropped)
            &&& somes(r) == rescale(retained)
            &&& forall|i: int| 0 <= i < r.len() ==> ((r[i] is Some) <==> i < retained.len())
        };
    let total = sum_pairs(retained);
    crate::mass::lemma_sum_slots_somes(r);
    lemma_sum_pairs_nonneg(retained);
    lemma_sum_pairs_nonneg(dropped);
    // a zero retained total would force every mass to zero
    if total == 0 {
        assert(bba.len() > 0) by {
            if bba.len() == 0 {
                assert(sum_pairs(bba) == 0);
            }
        }
        assert(retained.len() > 0);
        lemma_all_bounded_by_zero(retained, dropped);
        assert(sum_pairs(bba) == 0);
        assert(false);
    }
    lemma_rescale_exact(retained);
}

/// If every retained mass is zero, so is every dropped mass, and both
/// totals vanish.
proof fn lemma_all_bounded_by_zero<S>(retained: Seq<(S, u64)>, dropped: Seq<(S, u64)>)
    requires
        sum_pairs(retained) == 0,
        retained.len() > 0,
        forall|i: int, j: int|
            0 <= i < retained.len() && 0 <= j < dropped.len() ==> #[trigger] retained[i].1
                >= #[trigger] dropped[j].1,
    ensures
        sum_pairs(dropped) == 0,
    decreases dropped.len(),
{
    assert forall|i: int| 0 <= i < retained.len() implies retained[i].1 == 0 by {
        lemma_sum_pairs_bounds_each(retained, i);
    }
    if dropped.len() > 0 {
        assert(forall|j: int| 0 <= j < dropped.len() - 1 ==> dropped.drop_last()[j] == dropped[j]);
        lemma_all_bounded_by_zero(retained, dropped.drop_last());
        assert(dropped.last().1 <= retained[0].1);
    }
}

/// Idempotence of Top-N: approximating an assignment that is already
/// within the bound and sums to one unit returns the same multiset of
/// focal elements.
pub proof fn lemma_kx_idempotent<S: SetAlgebra>(
    bba: Seq<(S, u64)>,
    n: nat,
    r: Seq<Option<(S, u64)>>,
)
    requires
        <KX as Approximation<S>>::approx_post(bba, n, r),
        bba.len() <= n,
        sum_pairs(bba) == UNIT,
    ensures
        somes(r).to_multiset() == bba.to_multiset(),
{
    broadcast use vstd::seq_lib::group_to_multiset_ensures;
    broadcast use vstd::multiset::group_multiset_axioms;

    let (retained, dropped) = choose|retained: Seq<(S, u64)>, dropped: Seq<(S, u64)>|
        {
            &&& #[trigger] is_selection(bba, n, retained, dropped)
            &&& somes(r) == rescale(retained)
            &&& forall|i: int| 0 <= i < r.len() ==> ((r[i] is Some) <==> i < retained.len())
        };
    assert(retained.len() == bba.len());
    assert(retained.to_multiset().len() == retained.len());
    assert(dropped.to_multiset().len() == dropped.len());
    assert(bba.to_multiset().len() == bba.len());
    assert(dropped.len() == 0);
    assert(dropped =~= Seq::<(S, u64)>::empty());
    assert(sum_pairs(dropped) == 0);
    let total = sum_pairs(retained);
    assert(total == UNIT);
    assert_multisets_equal!(retained.to_multiset().add(dropped.to_multiset()),
        retained.to_multiset());
    assert(scaled(retained, total) =~= retained) by {
        assert forall|i: int| 0 <= i < retained.len() implies scaled(retained, total)[i]
            == retained[i] by {
            let m = retained[i].1 as int;
            vstd::arithmetic::mul::lemma_mul_is_commutative(m, UNIT as int);
            vstd::arithmetic::div_mod::lemma_div_multiples_vanish(m, UNIT as int);
        }
    }
    // with no rounding deficit, assigning it back changes nothing
    assert(retained.len() > 0) by {
        if retained.len() == 0 {
            assert(sum_pairs(retained) == 0);
        }
    }
    assert(rescale(retained) =~= retained) by {
        assert(sum_pairs(scaled(retained, total)) == sum_pairs(retained));
        assert(rescale(retained) == retained.update(
            0,
            (retained[0].0, (retained[0].1 + ((UNIT as int) - (UNIT as int))) as u64),
        ));
    }
    assert(somes(r) == retained);
}

/// Mass conservation for Summarize: the output total, residual included,
/// equals the input total exactly.
pub proof fn lemma_summarize_mass_conservation<S: SetAlgebra>(
    bba: Seq<(S, u64)>,
    n: nat,
    r: Seq<Option<(S, u64)>>,
)
    requires
        <Summarize as Approximation<S>>::approx_post(bba, n, r),
        sum_pairs(bba) <= u64::MAX,
        n >= 1,
    ensures
        sum_slots(r) == sum_pairs(bba),
{
    let (retained, dropped) = choose|retained: Seq<(S, u64)>, dropped: Seq<(S, u64)>|
        {
            &&& #[trigger] is_selection(bba, (n - 1) as nat, retained, dropped)
            &&& r.len() == n
            &&& forall|j: int| 0 <= j < retained.len() ==> r[j] == Some(retained[j])
            &&& forall|j: int| retained.len() <= j < n - 1 ==> r[j] is None
            &&& r[n - 1] == Some((fold_cup(dropped), sum_pairs(dropped) as u64))
        };
    lemma_sum_pairs_nonneg(retained);
    lemma_sum_pairs_nonneg(dropped);
    crate::mass::lemma_sum_slots_somes(r);
    let residual = (fold_cup(dropped), sum_pairs(dropped) as u64);
    assert(somes(r.drop_last()).push(residual) == somes(r)) by {
        assert(r.last() == Some(residual));
        assert(somes(r).drop_last() == somes(r.drop_last()));
    }
    assert(forall|j: int| 0 <= j < r.len() - 1 ==> r.drop_last()[j] == r[j]);
    lemma_somes_prefix(r.drop_last(), retained.len() as int);
    assert(somes(r.drop_last()) =~= retained);
    assert(somes(r) == retained.push(residual));
    assert(somes(r).drop_last() == retained);
    assert(sum_pairs(somes(r)) == sum_pairs(retained) + residual.1);
    assert(residual.1 == sum_pairs(dropped));
}

} // verus!
