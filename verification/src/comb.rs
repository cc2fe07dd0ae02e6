//! Combination rules for Dempster-Shafer theory: fuse two bounded mass
//! assignments by pairwise intersection, accumulate conflicting mass, and
//! renormalize by `1 / (1 - conflict)`.
use vstd::prelude::*;

use crate::approx::{scaled, lemma_scaled_sum_bounds, lemma_scaled_le_unit};
use crate::container::{SummationEM, key_mass, has_key, distinct_keys, lemma_key_mass_distinct};
use crate::mass::{
    UNIT,
    sum_pairs,
    sum_slots,
    slot_mass,
    lemma_sum_pairs_nonneg,
    lemma_sum_pairs_bounds_each,
    lemma_sum_slots_nonneg,
    lemma_sum_slots_bounds_each,
    lemma_sum_slots_take_le,
};
use crate::set::SetAlgebra;

verus! {

/// How a combination can fail.
///
/// Combining assignments whose evidence is fully contradictory leaves the
/// normalization factor undefined; combining an empty collection of
/// assignments leaves nothing to fuse. (The accumulator cannot run out of
/// slots: it is sized `N * N` by construction, one slot per pair.)
#[derive(Clone, Copy, Debug, PartialEq, Eq, Structural)]
pub enum FusionError {
    /// The conflict mass reached one whole unit, so the combined belief is
    /// undefined.
    FullContradiction,
    /// There was no assignment to combine.
    EmptyInput,
}

/// The unnormalized mass that pairing `x` against the slots of `b` puts on
/// the hypothesis `h` (empty intersections excluded).
pub open spec fn row_weight<S: SetAlgebra>(x: (S, u64), b: Seq<Option<(S, u64)>>, h: S) -> int
    decreases b.len(),
{
    if b.len() == 0 {
        0
    } else {
        row_weight(x, b.drop_last(), h) + match b.last() {
            Some(y) => {
                let c = x.0.cap_spec(y.0);
                if c == h && !c.is_empty_spec() {
                    (x.1 as int) * (y.1 as int)
                } else {
                    0
                }
            },
            None => 0,
        }
    }
}

/// The unnormalized mass that pairing `a` against `b` puts on `h`.
pub open spec fn pair_weight<S: SetAlgebra>(
    a: Seq<Option<(S, u64)>>,
    b: Seq<Option<(S, u64)>>,
    h: S,
) -> int
    decreases a.len(),
{
    if a.len() == 0 {
        0
    } else {
        pair_weight(a.drop_last(), b, h) + match a.last() {
            Some(x) => row_weight(x, b, h),
            None => 0,
        }
    }
}

/// The conflict mass that pairing `x` against the slots of `b` assigns to
/// the empty intersection.
pub open spec fn row_conflict<S: SetAlgebra>(x: (S, u64), b: Seq<Option<(S, u64)>>) -> int
    decreases b.len(),
{
    if b.len() == 0 {
        0
    } else {
        row_conflict(x, b.drop_last()) + match b.last() {
            Some(y) => {
                if x.0.cap_spec(y.0).is_empty_spec() {
                    (x.1 as int) * (y.1 as int)
                } else {
                    0
                }
            },
            None => 0,
        }
    }
}

/// The total conflict mass `K` of pairing `a` against `b`.
pub open spec fn conflict<S: SetAlgebra>(a: Seq<Option<(S, u64)>>, b: Seq<Option<(S, u64)>>) -> int
    decreases a.len(),
{
    if a.len() == 0 {
        0
    } else {
        conflict(a.drop_last(), b) + match a.last() {
            Some(x) => row_conflict(x, b),
            None => 0,
        }
    }
}

/// The total pairing mass of `x` against the slots of `b`, empty
/// intersections included.
pub open spec fn row_cross<S: SetAlgebra>(x: (S, u64), b: Seq<Option<(S, u64)>>) -> int
    decreases b.len(),
{
    if b.len() == 0 {
        0
    } else {
        row_cross(x, b.drop_last()) + match b.last() {
            Some(y) => (x.1 as int) * (y.1 as int),
            None => 0,
        }
    }
}

/// The total pairing mass of `a` against `b`: the product of the totals.
pub open spec fn cross<S: SetAlgebra>(a: Seq<Option<(S, u64)>>, b: Seq<Option<(S, u64)>>) -> int
    decreases a.len(),
{
    if a.len() == 0 {
        0
    } else {
        cross(a.drop_last(), b) + match a.last() {
            Some(x) => row_cross(x, b),
            None => 0,
        }
    }
}

/// Whether some pair of occupied slots intersects in exactly the
/// (non-empty) hypothesis `h`.
pub open spec fn hit<S: SetAlgebra>(a: Seq<Option<(S, u64)>>, b: Seq<Option<(S, u64)>>, h: S) -> bool {
    exists|i: int, j: int|
        {
            &&& 0 <= i < a.len()
            &&& 0 <= j < b.len()
            &&& a[i] is Some
            &&& b[j] is Some
            &&& (#[trigger] a[i])->Some_0.0.cap_spec((#[trigger] b[j])->Some_0.0) == h
            &&& !h.is_empty_spec()
        }
}

/// A combination rule: fuse two bounded assignments into one, or report
/// that their evidence is irreconcilable.
pub trait CombRule<S: SetAlgebra>: Sized {
    /// When the rule cannot combine the two assignments.
    spec fn comb_err(a: Seq<Option<(S, u64)>>, b: Seq<Option<(S, u64)>>) -> bool;

    /// Exactly what a successful combination returns.
    spec fn comb_ok_post(
        a: Seq<Option<(S, u64)>>,
        b: Seq<Option<(S, u64)>>,
        v: Seq<(S, u64)>,
    ) -> bool;

    /// Fuse `a` and `b`.
    fn comb<const N: usize>(a: &Vec<Option<(S, u64)>>, b: &Vec<Option<(S, u64)>>) -> (r: Result<
        Vec<(S, u64)>,
        FusionError,
    >)
        requires
            a@.len() == N,
            b@.len() == N,
            sum_slots(a@) <= UNIT,
            sum_slots(b@) <= UNIT,
        ensures
            r is Err <==> Self::comb_err(a@, b@),
            r is Err ==> r->Err_0 == FusionError::FullContradiction,
            r is Ok ==> Self::comb_ok_post(a@, b@, r->Ok_0@),
            r is Ok ==> sum_pairs(r->Ok_0@) <= UNIT,
            r is Ok && sum_slots(a@) == UNIT && sum_slots(b@) == UNIT ==> sum_pairs(r->Ok_0@)
                >= (UNIT as int) - r->Ok_0@.len(),
    ;
}

/// Dempster's rule of combination.
pub struct Dempster();

impl<S: SetAlgebra> CombRule<S> for Dempster {
    /// Dempster's rule is undefined exactly when the conflict mass `K`
    /// reaches one whole unit of pairing mass.
    open spec fn comb_err(a: Seq<Option<(S, u64)>>, b: Seq<Option<(S, u64)>>) -> bool {
        conflict(a, b) == (UNIT as int) * (UNIT as int)
    }

    /// The result holds one entry per non-empty pairwise intersection,
    /// carrying its accumulated pairing mass scaled by `1 / (1 - K)`.
    open spec fn comb_ok_post(
        a: Seq<Option<(S, u64)>>,
        b: Seq<Option<(S, u64)>>,
        v: Seq<(S, u64)>,
    ) -> bool {
        &&& distinct_keys(v)
        &&& forall|k: int|
            0 <= k < v.len() ==> !(#[trigger] v[k]).0.is_empty_spec() && hit(a, b, v[k].0)
                && v[k].1 == pair_weight(a, b, v[k].0) * UNIT / ((UNIT as int) * (UNIT as int)
                - conflict(a, b))
        &&& forall|h: S| hit(a, b, h) ==> has_key(v, h)
    }

    #[verifier::loop_isolation(false)]
    #[verifier::rlimit(60)]
    fn comb<const N: usize>(a: &Vec<Option<(S, u64)>>, b: &Vec<Option<(S, u64)>>) -> (r: Result<
        Vec<(S, u64)>,
        FusionError,
    >) {
        let mut conflict_acc: u64 = 0;
        let mut map: SummationEM<N, S> = Default::default();
        let n = a.len();
        let mut i: usize = 0;
        proof {
            assert(a@.take(0) =~= Seq::<Option<(S, u64)>>::empty());
            lemma_cross_identity(a@, b@);
            lemma_sum_slots_nonneg(a@);
            lemma_sum_slots_nonneg(b@);
            assert(cross(a@, b@) <= (UNIT as int) * (UNIT as int)) by (nonlinear_arith)
                requires
                    cross(a@, b@) == sum_slots(a@) * sum_slots(b@),
                    0 <= sum_slots(a@) <= UNIT,
                    0 <= sum_slots(b@) <= UNIT,
            ;
        }
        while i < n
            invariant
                map.wf(),
                i <= n,
                forall|h: S| key_mass(map.entries(), h) == pair_weight(a@.take(i as int), b@, h),
                forall|h: S| has_key(map.entries(), h) <==> hit(a@.take(i as int), b@, h),
                conflict_acc == conflict(a@.take(i as int), b@),
                sum_pairs(map.entries()) + conflict_acc == cross(a@.take(i as int), b@),
                cross(a@.take(i as int), b@) <= cross(a@, b@),
                map.entries().len() <= i * (N as int),
            decreases n - i,
        {
            let ghost prefix = a@.take(i as int);
            proof {
                assert(a@.take(i + 1 as int).drop_last() =~= prefix);
                assert(a@.take(i + 1 as int).last() == a@[i as int]);
                lemma_cross_prefix_bound(a@, b@, i + 1);
                assert(cross(a@.take(i + 1 as int), b@) == cross(prefix, b@) + match a@[i as int] {
                    Some(x) => row_cross(x, b@),
                    None => 0,
                });
            }
            if let Some(x) = a[i] {
                let mut j: usize = 0;
                proof {
                    assert(b@.take(0) =~= Seq::<Option<(S, u64)>>::empty());
                    lemma_sum_slots_bounds_each(a@, i as int);
                }
                while j < n
                    invariant
                        map.wf(),
                        j <= n,
                        forall|h: S|
                            key_mass(map.entries(), h) == pair_weight(prefix, b@, h) + row_weight(
                                x,
                                b@.take(j as int),
                                h,
                            ),
                        forall|h: S|
                            has_key(map.entries(), h) <==> hit(prefix, b@, h) || row_hit(
                                x,
                                b@.take(j as int),
                                h,
                            ),
                        conflict_acc == conflict(prefix, b@) + row_conflict(x, b@.take(j as int)),
                        sum_pairs(map.entries()) + conflict_acc == cross(prefix, b@) + row_cross(
                            x,
                            b@.take(j as int),
                        ),
                        cross(prefix, b@) + row_cross(x, b@.take(j as int)) <= cross(a@, b@),
                        map.entries().len() <= i * (N as int) + j,
                    decreases n - j,
                {
                    let ghost bj = b@.take(j as int);
                    proof {
                        assert(b@.take(j + 1 as int).drop_last() =~= bj);
                        assert(b@.take(j + 1 as int).last() == b@[j as int]);
                        match b@[j as int] {
                            Some(y) => {
                                if x.0.cap_spec(y.0).is_empty_spec() {
                                    assert(row_conflict(x, b@.take(j + 1 as int)) == row_conflict(
                                        x,
                                        bj,
                                    ) + (x.1 as int) * (y.1 as int));
                                } else {
                                    assert(row_conflict(x, b@.take(j + 1 as int)) == row_conflict(
                                        x,
                                        bj,
                                    ));
                                }
                            },
                            None => {
                                assert(row_conflict(x, b@.take(j + 1 as int)) == row_conflict(
                                    x,
                                    bj,
                                ));
                            },
                        }
                    }
                    if let Some(y) = b[j] {
                        proof {
                            lemma_sum_slots_bounds_each(b@, j as int);
                            lemma_row_cross_prefix_bound(x, b@, j as int);
                            assert(row_cross(x, b@.take(j + 1 as int)) <= row_cross(x, b@));
                            assert(cross(prefix, b@) + row_cross(x, b@) == cross(
                                a@.take(i + 1 as int),
                                b@,
                            ));
                            assert(cross(prefix, b@) + row_cross(x, b@.take(j + 1 as int)) <= cross(
                                a@,
                                b@,
                            ));
                            assert(row_cross(x, b@.take(j + 1 as int)) == row_cross(x, bj) + (
                            x.1 as int) * (y.1 as int));
                            assert((x.1 as int) * (y.1 as int) <= (UNIT as int) * (UNIT as int))
                                by (nonlinear_arith)
                                requires
                                    0 <= x.1 <= UNIT,
                                    0 <= y.1 <= UNIT,
                            ;
                            lemma_sum_pairs_nonneg(map.entries());
                        }
                        proof {
                            assert((1_000_000 as int) * (1_000_000 as int) == 1_000_000_000_000)
                                by (nonlinear_arith);
                            assert((UNIT as int) * (UNIT as int) == 1_000_000_000_000);
                        }
                        let h = S::cap(&x.0, &y.0);
                        let m = x.1 * y.1;
                        if h.is_empty() {
                            conflict_acc = conflict_acc + m;
                            proof {
                                assert forall|q: S|
                                    key_mass(map.entries(), q) == pair_weight(prefix, b@, q)
                                        + row_weight(x, b@.take(j + 1 as int), q) by {
                                    assert(row_weight(x, b@.take(j + 1 as int), q) == row_weight(
                                        x,
                                        bj,
                                        q,
                                    ));
                                }
                                assert forall|q: S|
                                    has_key(map.entries(), q) <==> hit(prefix, b@, q) || row_hit(
                                        x,
                                        b@.take(j + 1 as int),
                                        q,
                                    ) by {
                                    lemma_row_hit_step_empty(x, b@, j as int, q);
                                }
                            }
                        } else {
                            proof {
                                S::lemma_empty_unique(h);
                                assert(i * (N as int) + j < (N as int) * (N as int)) by (
                                nonlinear_arith)
                                    requires
                                        0 <= i < N,
                                        0 <= j < N,
                                ;
                            }
                            map.insert(h, m);
                            proof {
                                assert forall|q: S|
                                    key_mass(map.entries(), q) == pair_weight(prefix, b@, q)
                                        + row_weight(x, b@.take(j + 1 as int), q) by {
                                    assert(row_weight(x, b@.take(j + 1 as int), q) == row_weight(
                                        x,
                                        bj,
                                        q,
                                    ) + if x.0.cap_spec(y.0) == q && !q.is_empty_spec() {
                                        (x.1 as int) * (y.1 as int)
                                    } else {
                                        0
                                    });
                                }
                                assert forall|q: S|
                                    has_key(map.entries(), q) <==> hit(prefix, b@, q) || row_hit(
                                        x,
                                        b@.take(j + 1 as int),
                                        q,
                                    ) by {
                                    lemma_row_hit_step(x, b@, j as int, q);
                                }
                            }
                        }
                    } else {
                        proof {
                            assert forall|q: S|
                                key_mass(map.entries(), q) == pair_weight(prefix, b@, q)
                                    + row_weight(x, b@.take(j + 1 as int), q) by {
                                assert(row_weight(x, b@.take(j + 1 as int), q) == row_weight(
                                    x,
                                    bj,
                                    q,
                                ));
                            }
                            assert forall|q: S|
                                has_key(map.entries(), q) <==> hit(prefix, b@, q) || row_hit(
                                    x,
                                    b@.take(j + 1 as int),
                                    q,
                                ) by {
                                lemma_row_hit_step_none(x, b@, j as int, q);
                            }
                        }
                    }
                    j += 1;
                }
                proof {
                    assert(b@.take(n as int) =~= b@);
                    assert forall|h: S|
                        key_mass(map.entries(), h) == pair_weight(a@.take(i + 1 as int), b@, h) by {
                        assert(pair_weight(a@.take(i + 1 as int), b@, h) == pair_weight(prefix, b@, h)
                            + row_weight(x, b@, h));
                    }
                    assert(conflict(a@.take(i + 1 as int), b@) == conflict(prefix, b@)
                        + row_conflict(x, b@));
                    assert forall|h: S|
                        has_key(map.entries(), h) <==> hit(a@.take(i + 1 as int), b@, h) by {
                        lemma_hit_step(a@, b@, i as int, h);
                    }
                    assert(cross(a@.take(i + 1 as int), b@) == cross(prefix, b@) + row_cross(
                        x,
                        b@,
                    ));
                    assert(map.entries().len() <= i * (N as int) + (N as int));
                    assert(i * (N as int) + (N as int) == (i + 1) * (N as int)) by (nonlinear_arith);
                }
            } else {
                proof {
                    assert forall|h: S|
                        key_mass(map.entries(), h) == pair_weight(a@.take(i + 1 as int), b@, h) by {
                        assert(pair_weight(a@.take(i + 1 as int), b@, h) == pair_weight(
                            a@.take(i as int),
                            b@,
                            h,
                        ));
                    }
                    assert forall|h: S|
                        has_key(map.entries(), h) <==> hit(a@.take(i + 1 as int), b@, h) by {
                        lemma_hit_step(a@, b@, i as int, h);
                    }
                    assert(cross(a@.take(i + 1 as int), b@) == cross(a@.take(i as int), b@));
                    assert(conflict(a@.take(i + 1 as int), b@) == conflict(a@.take(i as int), b@));
                    assert(i * (N as int) <= (i + 1) * (N as int)) by (nonlinear_arith)
                        requires
                            i >= 0,
                            N >= 0,
                    ;
                }
            }
            i += 1;
        }
        proof {
            assert(a@.take(n as int) =~= a@);
        }
        let full: u64 = 1_000_000_000_000;
        proof {
            assert((1_000_000 as int) * (1_000_000 as int) == 1_000_000_000_000) by (
            nonlinear_arith);
            assert(full == (UNIT as int) * (UNIT as int));
            lemma_conflict_le_cross(a@, b@);
            lemma_sum_pairs_nonneg(map.entries());
        }
        if conflict_acc == full {
            return Err(FusionError::FullContradiction);
        }
        let denom = full - conflict_acc;
        proof {
            assert(sum_pairs(map.entries()) * UNIT <= u64::MAX) by (nonlinear_arith)
                requires
                    0 <= sum_pairs(map.entries()) <= (UNIT as int) * (UNIT as int),
                    UNIT == 1_000_000,
            ;
        }
        let ghost before = map.entries();
        proof {
            assert(sum_pairs(before) <= denom);
        }
        map.scale(UNIT, denom);
        let out = map.consume();
        proof {
            assert forall|k: int|
                0 <= k < out@.len() implies !(#[trigger] out@[k]).0.is_empty_spec() && hit(
                a@,
                b@,
                out@[k].0,
            ) && out@[k].1 == pair_weight(a@, b@, out@[k].0) * UNIT / ((UNIT as int) * (
            UNIT as int) - conflict(a@, b@)) by {
                assert(out@[k] == (
                    before[k].0,
                    (((before[k].1 as int) * UNIT) / (denom as int)) as u64,
                ));
                assert(has_key(before, before[k].0));
                lemma_key_mass_distinct(before, k);
                lemma_sum_pairs_bounds_each(before, k);
                lemma_scaled_le_unit(before[k].1 as int, denom as int);
            }
            assert forall|h: S| hit(a@, b@, h) implies has_key(out@, h) by {
                assert(has_key(before, h));
                let w = choose|w: int| 0 <= w < before.len() && before[w].0 == h;
                assert(out@[w].0 == h);
            }
            assert forall|q: int, w: int| 0 <= q < w < out@.len() implies out@[q].0
                != out@[w].0 by {
                assert(before[q].0 != before[w].0);
            }
            // the normalized total stays within one unit
            assert(out@ =~= scaled(before, denom as int)) by {
                assert forall|k: int| 0 <= k < out@.len() implies out@[k] == scaled(
                    before,
                    denom as int,
                )[k] by {}
            }
            assert forall|k: int| 0 <= k < before.len() implies #[trigger] before[k].1
                <= denom by {
                lemma_sum_pairs_bounds_each(before, k);
            }
            lemma_scaled_sum_bounds(before, denom as int);
            assert(denom * sum_pairs(out@) <= denom * UNIT) by (nonlinear_arith)
                requires
                    denom * sum_pairs(out@) <= sum_pairs(before) * UNIT,
                    0 <= sum_pairs(before) <= denom,
                    UNIT >= 0,
            ;
            assert(sum_pairs(out@) <= UNIT) by (nonlinear_arith)
                requires
                    denom > 0,
                    denom * sum_pairs(out@) <= denom * UNIT,
            ;
            // conservation: with both inputs at one unit, the normalized
            // total loses at most one micro-unit per surviving entry
            if sum_slots(a@) == UNIT && sum_slots(b@) == UNIT {
                assert(cross(a@, b@) == (UNIT as int) * (UNIT as int)) by (nonlinear_arith)
                    requires
                        cross(a@, b@) == sum_slots(a@) * sum_slots(b@),
                        sum_slots(a@) == UNIT,
                        sum_slots(b@) == UNIT,
                ;
                assert(sum_pairs(before) == denom as int);
                assert((denom as int) * sum_pairs(out@) >= sum_pairs(before) * UNIT
                    - before.len() * (denom as int));
                assert(out@.len() == before.len());
                assert(sum_pairs(out@) >= (UNIT as int) - out@.len()) by (nonlinear_arith)
                    requires
                        denom > 0,
                        (denom as int) * sum_pairs(out@) >= (denom as int) * (UNIT as int)
                            - out@.len() * (denom as int),
                ;
            }
        }
        Ok(out)
    }
}

/// Whether `x` intersects some occupied slot of `b` in exactly the
/// non-empty hypothesis `h`.
pub open spec fn row_hit<S: SetAlgebra>(x: (S, u64), b: Seq<Option<(S, u64)>>, h: S) -> bool {
    exists|j: int|
        {
            &&& 0 <= j < b.len()
            &&& b[j] is Some
            &&& x.0.cap_spec((#[trigger] b[j])->Some_0.0) == h
            &&& !h.is_empty_spec()
        }
}

proof fn lemma_row_hit_step<S: SetAlgebra>(x: (S, u64), b: Seq<Option<(S, u64)>>, j: int, q: S)
    requires
        0 <= j < b.len(),
        b[j] is Some,
        !x.0.cap_spec(b[j]->Some_0.0).is_empty_spec(),
    ensures
        row_hit(x, b.take(j + 1), q) <==> row_hit(x, b.take(j), q) || (x.0.cap_spec(
            b[j]->Some_0.0,
        ) == q && !q.is_empty_spec()),
{
    assert(forall|t: int| 0 <= t < j + 1 ==> b.take(j + 1)[t] == b[t]);
    assert(forall|t: int| 0 <= t < j ==> b.take(j)[t] == b[t]);
    if row_hit(x, b.take(j + 1), q) {
        let w = choose|w: int|
            {
                &&& 0 <= w < b.take(j + 1).len()
                &&& b.take(j + 1)[w] is Some
                &&& x.0.cap_spec((#[trigger] b.take(j + 1)[w])->Some_0.0) == q
                &&& !q.is_empty_spec()
            };
        if w < j {
            assert(b.take(j)[w] is Some && x.0.cap_spec(b.take(j)[w]->Some_0.0) == q);
        }
    }
    if row_hit(x, b.take(j), q) {
        let w = choose|w: int|
            {
                &&& 0 <= w < b.take(j).len()
                &&& b.take(j)[w] is Some
                &&& x.0.cap_spec((#[trigger] b.take(j)[w])->Some_0.0) == q
                &&& !q.is_empty_spec()
            };
        assert(b.take(j + 1)[w] is Some && x.0.cap_spec(b.take(j + 1)[w]->Some_0.0) == q);
    }
    if x.0.cap_spec(b[j]->Some_0.0) == q && !q.is_empty_spec() {
        assert(b.take(j + 1)[j] is Some && x.0.cap_spec(b.take(j + 1)[j]->Some_0.0) == q);
    }
}

proof fn lemma_row_hit_step_empty<S: SetAlgebra>(
    x: (S, u64),
    b: Seq<Option<(S, u64)>>,
    j: int,
    q: S,
)
    requires
        0 <= j < b.len(),
        b[j] is Some,
        x.0.cap_spec(b[j]->Some_0.0).is_empty_spec(),
    ensures
        row_hit(x, b.take(j + 1), q) <==> row_hit(x, b.take(j), q),
{
    assert(forall|t: int| 0 <= t < j + 1 ==> b.take(j + 1)[t] == b[t]);
    assert(forall|t: int| 0 <= t < j ==> b.take(j)[t] == b[t]);
    if row_hit(x, b.take(j + 1), q) {
        let w = choose|w: int|
            {
                &&& 0 <= w < b.take(j + 1).len()
                &&& b.take(j + 1)[w] is Some
                &&& x.0.cap_spec((#[trigger] b.take(j + 1)[w])->Some_0.0) == q
                &&& !q.is_empty_spec()
            };
        if w < j {
            assert(b.take(j)[w] is Some && x.0.cap_spec(b.take(j)[w]->Some_0.0) == q);
        } else {
            assert(false);
        }
    }
    if row_hit(x, b.take(j), q) {
        let w = choose|w: int|
            {
                &&& 0 <= w < b.take(j).len()
                &&& b.take(j)[w] is Some
                &&& x.0.cap_spec((#[trigger] b.take(j)[w])->Some_0.0) == q
                &&& !q.is_empty_spec()
            };
        assert(b.take(j + 1)[w] is Some && x.0.cap_spec(b.take(j + 1)[w]->Some_0.0) == q);
    }
}

proof fn lemma_row_hit_step_none<S: SetAlgebra>(
    x: (S, u64),
    b: Seq<Option<(S, u64)>>,
    j: int,
    q: S,
)
    requires
        0 <= j < b.len(),
        b[j] is None,
    ensures
        row_hit(x, b.take(j + 1), q) <==> row_hit(x, b.take(j), q),
{
    assert(forall|t: int| 0 <= t < j + 1 ==> b.take(j + 1)[t] == b[t]);
    assert(forall|t: int| 0 <= t < j ==> b.take(j)[t] == b[t]);
    if row_hit(x, b.take(j + 1), q) {
        let w = choose|w: int|
            {
                &&& 0 <= w < b.take(j + 1).len()
                &&& b.take(j + 1)[w] is Some
                &&& x.0.cap_spec((#[trigger] b.take(j + 1)[w])->Some_0.0) == q
                &&& !q.is_empty_spec()
            };
        if w < j {
            assert(b.take(j)[w] is Some && x.0.cap_spec(b.take(j)[w]->Some_0.0) == q);
        } else {
            assert(false);
        }
    }
    if row_hit(x, b.take(j), q) {
        let w = choose|w: int|
            {
                &&& 0 <= w < b.take(j).len()
                &&& b.take(j)[w] is Some
                &&& x.0.cap_spec((#[trigger] b.take(j)[w])->Some_0.0) == q
                &&& !q.is_empty_spec()
            };
        assert(b.take(j + 1)[w] is Some && x.0.cap_spec(b.take(j + 1)[w]->Some_0.0) == q);
    }
}

/// Extending the row prefix by one element relates `hit` on the two
/// prefixes of `a`.
proof fn lemma_hit_step<S: SetAlgebra>(a: Seq<Option<(S, u64)>>, b: Seq<Option<(S, u64)>>, i: int, h: S)
    requires
        0 <= i < a.len(),
    ensures
        hit(a.take(i + 1), b, h) <==> hit(a.take(i), b, h) || (a[i] is Some && row_hit(
            a[i]->Some_0,
            b,
            h,
        )),
{
    assert(forall|t: int| 0 <= t < i + 1 ==> a.take(i + 1)[t] == a[t]);
    assert(forall|t: int| 0 <= t < i ==> a.take(i)[t] == a[t]);
    if hit(a.take(i + 1), b, h) {
        let (w, z) = choose|w: int, z: int|
            {
                &&& 0 <= w < a.take(i + 1).len()
                &&& 0 <= z < b.len()
                &&& a.take(i + 1)[w] is Some
                &&& b[z] is Some
                &&& (#[trigger] a.take(i + 1)[w])->Some_0.0.cap_spec((#[trigger] b[z])->Some_0.0)
                    == h
                &&& !h.is_empty_spec()
            };
        if w < i {
            assert(a.take(i)[w] is Some && b[z] is Some && a.take(i)[w]->Some_0.0.cap_spec(
                b[z]->Some_0.0,
            ) == h);
        } else {
            assert(a[i] is Some);
            assert(b[z] is Some && a[i]->Some_0.0.cap_spec(b[z]->Some_0.0) == h);
        }
    }
    if hit(a.take(i), b, h) {
        let (w, z) = choose|w: int, z: int|
            {
                &&& 0 <= w < a.take(i).len()
                &&& 0 <= z < b.len()
                &&& a.take(i)[w] is Some
                &&& b[z] is Some
                &&& (#[trigger] a.take(i)[w])->Some_0.0.cap_spec((#[trigger] b[z])->Some_0.0) == h
                &&& !h.is_empty_spec()
            };
        assert(a.take(i + 1)[w] is Some && a.take(i + 1)[w]->Some_0.0.cap_spec(b[z]->Some_0.0)
            == h);
    }
    if a[i] is Some && row_hit(a[i]->Some_0, b, h) {
        let z = choose|z: int|
            {
                &&& 0 <= z < b.len()
                &&& b[z] is Some
                &&& a[i]->Some_0.0.cap_spec((#[trigger] b[z])->Some_0.0) == h
                &&& !h.is_empty_spec()
            };
        assert(a.take(i + 1)[i] is Some && a.take(i + 1)[i]->Some_0.0.cap_spec(b[z]->Some_0.0)
            == h);
    }
}

/// The total pairing mass of one row is its mass times the other side's
/// total.
proof fn lemma_row_cross_identity<S: SetAlgebra>(x: (S, u64), b: Seq<Option<(S, u64)>>)
    ensures
        row_cross(x, b) == (x.1 as int) * sum_slots(b),
    decreases b.len(),
{
    if b.len() == 0 {
        assert((x.1 as int) * 0 == 0) by (nonlinear_arith);
    } else {
        lemma_row_cross_identity(x, b.drop_last());
        assert((x.1 as int) * (sum_slots(b.drop_last()) + slot_mass(b.last())) == (x.1 as int)
            * sum_slots(b.drop_last()) + (x.1 as int) * slot_mass(b.last())) by (nonlinear_arith);
        match b.last() {
            Some(y) => {},
            None => {
                assert((x.1 as int) * 0 == 0) by (nonlinear_arith);
            },
        }
    }
}

/// The total pairing mass is the product of the two totals.
pub proof fn lemma_cross_identity<S: SetAlgebra>(a: Seq<Option<(S, u64)>>, b: Seq<Option<(S, u64)>>)
    ensures
        cross(a, b) == sum_slots(a) * sum_slots(b),
    decreases a.len(),
{
    if a.len() == 0 {
        assert(0 * sum_slots(b) == 0) by (nonlinear_arith);
    } else {
        lemma_cross_identity(a.drop_last(), b);
        assert((sum_slots(a.drop_last()) + slot_mass(a.last())) * sum_slots(b) == sum_slots(
            a.drop_last(),
        ) * sum_slots(b) + slot_mass(a.last()) * sum_slots(b)) by (nonlinear_arith);
        match a.last() {
            Some(x) => {
                lemma_row_cross_identity(x, b);
            },
            None => {
                assert(0 * sum_slots(b) == 0) by (nonlinear_arith);
            },
        }
    }
}

/// A prefix of the rows contributes at most the whole pairing mass.
proof fn lemma_cross_prefix_bound<S: SetAlgebra>(
    a: Seq<Option<(S, u64)>>,
    b: Seq<Option<(S, u64)>>,
    i: int,
)
    requires
        0 <= i <= a.len(),
    ensures
        cross(a.take(i), b) <= cross(a, b),
        cross(a.take(i), b) >= 0,
    decreases a.len() - i,
{
    lemma_cross_identity(a.take(i), b);
    lemma_cross_identity(a, b);
    lemma_sum_slots_take_le(a, i);
    lemma_sum_slots_nonneg(a.take(i));
    lemma_sum_slots_nonneg(a);
    lemma_sum_slots_nonneg(b);
    assert(sum_slots(a.take(i)) * sum_slots(b) <= sum_slots(a) * sum_slots(b)) by (
    nonlinear_arith)
        requires
            0 <= sum_slots(a.take(i)) <= sum_slots(a),
            0 <= sum_slots(b),
    ;
    assert(sum_slots(a.take(i)) * sum_slots(b) >= 0) by (nonlinear_arith)
        requires
            0 <= sum_slots(a.take(i)),
            0 <= sum_slots(b),
    ;
}

/// A prefix of one row contributes at most that row's pairing mass, and
/// the whole stays bounded.
proof fn lemma_row_cross_prefix_bound<S: SetAlgebra>(
    x: (S, u64),
    b: Seq<Option<(S, u64)>>,
    j: int,
)
    requires
        0 <= j < b.len(),
    ensures
        row_cross(x, b.take(j + 1)) <= row_cross(x, b),
        row_cross(x, b.take(j)) >= 0,
{
    lemma_row_cross_identity(x, b.take(j + 1));
    lemma_row_cross_identity(x, b.take(j));
    lemma_row_cross_identity(x, b);
    lemma_sum_slots_take_le(b, j + 1);
    lemma_sum_slots_nonneg(b.take(j + 1));
    lemma_sum_slots_nonneg(b.take(j));
    assert((x.1 as int) * sum_slots(b.take(j + 1)) <= (x.1 as int) * sum_slots(b)) by (
    nonlinear_arith)
        requires
            0 <= sum_slots(b.take(j + 1)) <= sum_slots(b),
            0 <= x.1,
    ;
    assert((x.1 as int) * sum_slots(b.take(j)) >= 0) by (nonlinear_arith)
        requires
            0 <= sum_slots(b.take(j)),
            0 <= x.1,
    ;
}

/// Conflict mass never exceeds the total pairing mass.
proof fn lemma_row_conflict_le_cross<S: SetAlgebra>(x: (S, u64), b: Seq<Option<(S, u64)>>)
    ensures
        0 <= row_conflict(x, b) <= row_cross(x, b),
    decreases b.len(),
{
    if b.len() > 0 {
        lemma_row_conflict_le_cross(x, b.drop_last());
        match b.last() {
            Some(y) => {
                assert((x.1 as int) * (y.1 as int) >= 0) by (nonlinear_arith)
                    requires
                        x.1 >= 0,
                        y.1 >= 0,
                ;
            },
            None => {},
        }
    }
}

/// Conflict mass never exceeds the total pairing mass.
pub proof fn lemma_conflict_le_cross<S: SetAlgebra>(
    a: Seq<Option<(S, u64)>>,
    b: Seq<Option<(S, u64)>>,
)
    ensures
        0 <= conflict(a, b) <= cross(a, b),
    decreases a.len(),
{
    if a.len() > 0 {
        lemma_conflict_le_cross(a.drop_last(), b);
        match a.last() {
            Some(x) => {
                lemma_row_conflict_le_cross(x, b);
                lemma_row_cross_identity(x, b);
            },
            None => {},
        }
    }
}

/// A row against an empty side contributes nothing.
proof fn lemma_pair_weight_empty<S: SetAlgebra>(b: Seq<Option<(S, u64)>>, h: S)
    ensures
        pair_weight(b, Seq::<Option<(S, u64)>>::empty(), h) == 0,
        conflict(b, Seq::<Option<(S, u64)>>::empty()) == 0,
    decreases b.len(),
{
    if b.len() > 0 {
        lemma_pair_weight_empty(b.drop_last(), h);
    }
}

/// Appending a slot on the right adds exactly that slot's row, thanks to
/// the symmetry of intersection and multiplication.
proof fn lemma_pair_weight_push<S: SetAlgebra>(
    b: Seq<Option<(S, u64)>>,
    a: Seq<Option<(S, u64)>>,
    x: Option<(S, u64)>,
    h: S,
)
    ensures
        pair_weight(b, a.push(x), h) == pair_weight(b, a, h) + match x {
            Some(x0) => row_weight(x0, b, h),
            None => 0,
        },
        conflict(b, a.push(x)) == conflict(b, a) + match x {
            Some(x0) => row_conflict(x0, b),
            None => 0,
        },
    decreases b.len(),
{
    if b.len() > 0 {
        lemma_pair_weight_push(b.drop_last(), a, x, h);
        match b.last() {
            Some(y) => {
                assert(a.push(x).drop_last() == a);
                assert(a.push(x).last() == x);
                match x {
                    Some(x0) => {
                        S::lemma_cap_comm(y.0, x0.0);
                        assert((y.1 as int) * (x0.1 as int) == (x0.1 as int) * (y.1 as int)) by (
                        nonlinear_arith);
                        assert(row_weight(y, a.push(x), h) == row_weight(y, a, h) + if x0.0.cap_spec(
                            y.0,
                        ) == h && !x0.0.cap_spec(y.0).is_empty_spec() {
                            (x0.1 as int) * (y.1 as int)
                        } else {
                            0
                        });
                        assert(row_conflict(y, a.push(x)) == row_conflict(y, a) + if x0.0.cap_spec(
                            y.0,
                        ).is_empty_spec() {
                            (x0.1 as int) * (y.1 as int)
                        } else {
                            0
                        });
                    },
                    None => {
                        assert(row_weight(y, a.push(x), h) == row_weight(y, a, h));
                        assert(row_conflict(y, a.push(x)) == row_conflict(y, a));
                    },
                }
            },
            None => {},
        }
    }
}

/// Pairing mass and conflict mass are symmetric in the two assignments.
pub proof fn lemma_dempster_commutes<S: SetAlgebra>(
    a: Seq<Option<(S, u64)>>,
    b: Seq<Option<(S, u64)>>,
)
    ensures
        forall|h: S| #[trigger] pair_weight(a, b, h) == pair_weight(b, a, h),
        conflict(a, b) == conflict(b, a),
        forall|h: S| #[trigger] hit(a, b, h) <==> hit(b, a, h),
{
    assert forall|h: S| #[trigger] pair_weight(a, b, h) == pair_weight(b, a, h) by {
        lemma_pair_weight_comm(a, b, h);
    }
    lemma_pair_weight_comm(a, b, S::empty_spec());
    assert forall|h: S| #[trigger] hit(a, b, h) <==> hit(b, a, h) by {
        lemma_hit_comm(a, b, h);
        lemma_hit_comm(b, a, h);
    }
}

proof fn lemma_pair_weight_comm<S: SetAlgebra>(
    a: Seq<Option<(S, u64)>>,
    b: Seq<Option<(S, u64)>>,
    h: S,
)
    ensures
        pair_weight(a, b, h) == pair_weight(b, a, h),
        conflict(a, b) == conflict(b, a),
    decreases a.len(),
{
    if a.len() == 0 {
        assert(a =~= Seq::<Option<(S, u64)>>::empty());
        lemma_pair_weight_empty(b, h);
    } else {
        lemma_pair_weight_comm(a.drop_last(), b, h);
        lemma_pair_weight_push(b, a.drop_last(), a.last(), h);
        assert(a.drop_last().push(a.last()) =~= a);
    }
}

proof fn lemma_hit_comm<S: SetAlgebra>(a: Seq<Option<(S, u64)>>, b: Seq<Option<(S, u64)>>, h: S)
    ensures
        hit(a, b, h) ==> hit(b, a, h),
{
    if hit(a, b, h) {
        let (w, z) = choose|w: int, z: int|
            {
                &&& 0 <= w < a.len()
                &&& 0 <= z < b.len()
                &&& a[w] is Some
                &&& b[z] is Some
                &&& (#[trigger] a[w])->Some_0.0.cap_spec((#[trigger] b[z])->Some_0.0) == h
                &&& !h.is_empty_spec()
            };
        S::lemma_cap_comm(a[w]->Some_0.0, b[z]->Some_0.0);
        assert(b[z] is Some && a[w] is Some && b[z]->Some_0.0.cap_spec(a[w]->Some_0.0) == h);
    }
}

/// Combination commutativity: a successful `comb(a, b)` and `comb(b, a)`
/// hold the same multiset of `(hypothesis, mass)` pairs.
pub proof fn lemma_dempster_comb_commutes<S: SetAlgebra>(
    a: Seq<Option<(S, u64)>>,
    b: Seq<Option<(S, u64)>>,
    v1: Seq<(S, u64)>,
    v2: Seq<(S, u64)>,
)
    requires
        <Dempster as CombRule<S>>::comb_ok_post(a, b, v1),
        <Dempster as CombRule<S>>::comb_ok_post(b, a, v2),
    ensures
        v1.to_multiset() == v2.to_multiset(),
{
    broadcast use vstd::seq_lib::group_to_multiset_ensures;
    broadcast use vstd::multiset::group_multiset_axioms;

    lemma_dempster_commutes(a, b);
    assert forall|k: int| 0 <= k < v1.len() implies v2.contains(#[trigger] v1[k]) by {
        assert(hit(b, a, v1[k].0));
        assert(has_key(v2, v1[k].0));
        let w = choose|w: int| 0 <= w < v2.len() && v2[w].0 == v1[k].0;
        assert(v2[w].1 == v1[k].1);
        assert(v2[w] == v1[k]);
    }
    assert forall|k: int| 0 <= k < v2.len() implies v1.contains(#[trigger] v2[k]) by {
        assert(hit(a, b, v2[k].0));
        assert(has_key(v1, v2[k].0));
        let w = choose|w: int| 0 <= w < v1.len() && v1[w].0 == v2[k].0;
        assert(v1[w].1 == v2[k].1);
        assert(v1[w] == v2[k]);
    }
    assert(v1.no_duplicates()) by {
        assert forall|p: int, q: int|
            0 <= p < v1.len() && 0 <= q < v1.len() && p != q implies v1[p] != v1[q] by {
            if p < q {
                assert(v1[p].0 != v1[q].0);
            } else {
                assert(v1[q].0 != v1[p].0);
            }
        }
    }
    assert(v2.no_duplicates()) by {
        assert forall|p: int, q: int|
            0 <= p < v2.len() && 0 <= q < v2.len() && p != q implies v2[p] != v2[q] by {
            if p < q {
                assert(v2[p].0 != v2[q].0);
            } else {
                assert(v2[q].0 != v2[p].0);
            }
        }
    }
    v1.lemma_multiset_has_no_duplicates();
    v2.lemma_multiset_has_no_duplicates();
    assert forall|e: (S, u64)| true implies v1.to_multiset().count(e) == v2.to_multiset().count(
        e,
    ) by {
        if v1.contains(e) {
            let k = choose|k: int| 0 <= k < v1.len() && v1[k] == e;
            assert(v2.contains(e));
        } else if v2.contains(e) {
            let k = choose|k: int| 0 <= k < v2.len() && v2[k] == e;
            assert(v1.contains(e));
            assert(false);
        } else {
            assert(v1.to_multiset().count(e) == 0);
            assert(v2.to_multiset().count(e) == 0);
        }
    }
    assert(v1.to_multiset() =~= v2.to_multiset());
}

} // verus!
