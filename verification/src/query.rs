//! Direct combined-belief queries: Dempster's rule over any number of
//! mass assignments, evaluated for a single hypothesis without
//! materializing the combined assignment.
use vstd::prelude::*;

use crate::approx::lemma_scaled_le_unit;
use crate::dst::views_of;
use crate::mass::UNIT;

verus! {

/// A leaner set capability: subset test, emptiness, and intersection.
pub trait SetOperations: Sized {
    /// What the subset test means for this representation.
    spec fn subset_spec(self, rhs: Self) -> bool;

    /// Whether this value is the empty set.
    spec fn is_empty_spec(self) -> bool;

    /// What intersection means for this representation.
    spec fn inter_spec(self, rhs: Self) -> Self;

    /// Return whether this is a subset of `rhs`.
    fn is_subset(&self, rhs: &Self) -> (r: bool)
        ensures
            r == self.subset_spec(*rhs),
    ;

    /// Return whether this is the empty set.
    fn is_empty(&self) -> (r: bool)
        ensures
            r == self.is_empty_spec(),
    ;

    /// Return the intersection of this and `rhs`.
    fn intersection(&self, rhs: &Self) -> (r: Self)
        ensures
            r == self.inter_spec(*rhs),
    ;
}

/// The fixed-width bitset model.
impl SetOperations for usize {
    open spec fn subset_spec(self, rhs: Self) -> bool {
        self & rhs == self
    }

    open spec fn is_empty_spec(self) -> bool {
        self == 0
    }

    open spec fn inter_spec(self, rhs: Self) -> Self {
        self & rhs
    }

    fn is_subset(&self, rhs: &Self) -> bool {
        *self & *rhs == *self
    }

    fn is_empty(&self) -> bool {
        *self == 0
    }

    fn intersection(&self, rhs: &Self) -> Self {
        *self & *rhs
    }
}

/// Total mass of the elements of `s` from position `k` on.
pub open spec fn sum_from<S>(s: Seq<(S, u64)>, k: int) -> int
    decreases s.len() - k,
{
    if k < 0 || k >= s.len() {
        0
    } else {
        s[k].1 + sum_from(s, k + 1)
    }
}

/// The product of the assignments' total masses, over levels `d`
/// (inclusive) to `t` (exclusive).
pub open spec fn prod_range<S>(bbas: Seq<Seq<(S, u64)>>, d: int, t: int) -> int
    decreases t - d,
{
    if t <= d {
        1
    } else {
        sum_from(bbas[d], 0) * prod_range(bbas, d + 1, t)
    }
}

/// The mass that the product of the assignments from level `d` on puts on
/// the leaves selected by `conflict_side`, starting from the accumulated
/// intersection `acc` with accumulated mass `m`: the conflict side counts
/// leaves whose intersection is empty, the support side counts leaves
/// whose intersection equals `q` exactly.
pub open spec fn subtree_mass<S: SetOperations>(
    bbas: Seq<Seq<(S, u64)>>,
    d: int,
    acc: S,
    m: int,
    q: S,
    conflict_side: bool,
) -> int
    decreases bbas.len() - d, 1int, 0int,
{
    if d < 0 || d >= bbas.len() {
        if conflict_side {
            if acc.is_empty_spec() {
                m
            } else {
                0
            }
        } else {
            if !acc.is_empty_spec() && acc.subset_spec(q) && q.subset_spec(acc) {
                m
            } else {
                0
            }
        }
    } else {
        level_mass(bbas, d, 0, acc, m, q, conflict_side)
    }
}

/// As `subtree_mass`, summed over the choices `k` and later at level `d`.
pub open spec fn level_mass<S: SetOperations>(
    bbas: Seq<Seq<(S, u64)>>,
    d: int,
    k: int,
    acc: S,
    m: int,
    q: S,
    conflict_side: bool,
) -> int
    decreases bbas.len() - d, 0int, bbas[d].len() - k,
{
    if d < 0 || d >= bbas.len() || k < 0 || k >= bbas[d].len() {
        0
    } else {
        subtree_mass(
            bbas,
            d + 1,
            acc.inter_spec(bbas[d][k].0),
            m * bbas[d][k].1,
            q,
            conflict_side,
        ) + level_mass(bbas, d, k + 1, acc, m, q, conflict_side)
    }
}

/// The conflict mass `K` of the whole product, summed over the first
/// level's choices from `k` on.
pub open spec fn top_mass<S: SetOperations>(
    bbas: Seq<Seq<(S, u64)>>,
    k: int,
    q: S,
    conflict_side: bool,
) -> int
    decreases bbas[0].len() - k,
{
    if bbas.len() == 0 || k < 0 || k >= bbas[0].len() {
        0
    } else {
        subtree_mass(bbas, 1, bbas[0][k].0, bbas[0][k].1 as int, q, conflict_side) + top_mass(
            bbas,
            k + 1,
            q,
            conflict_side,
        )
    }
}

/// Each element's mass is within the suffix totals, which are nonnegative.
proof fn lemma_sum_from_bounds<S>(s: Seq<(S, u64)>, k: int)
    requires
        0 <= k,
    ensures
        0 <= sum_from(s, k),
        forall|t: int| k <= t < s.len() && 0 <= t ==> (#[trigger] s[t].1) <= sum_from(s, k),
    decreases s.len() - k,
{
    if 0 <= k < s.len() {
        lemma_sum_from_bounds(s, k + 1);
    }
}

/// Conflict and support leaves together never outweigh the remaining
/// product of totals.
proof fn lemma_subtree_bounds<S: SetOperations>(bbas: Seq<Seq<(S, u64)>>, d: int, acc: S, m: int, q: S)
    requires
        0 <= m,
        0 <= d,
    ensures
        0 <= subtree_mass(bbas, d, acc, m, q, true),
        0 <= subtree_mass(bbas, d, acc, m, q, false),
        subtree_mass(bbas, d, acc, m, q, true) + subtree_mass(bbas, d, acc, m, q, false) <= m
            * prod_range(bbas, d, bbas.len() as int),
    decreases bbas.len() - d, 1int, 0int,
{
    if d >= bbas.len() {
        assert(prod_range(bbas, d, bbas.len() as int) == 1);
        assert(m * 1 == m) by (nonlinear_arith);
    } else {
        lemma_level_bounds(bbas, d, 0, acc, m, q);
        let p = prod_range(bbas, d + 1, bbas.len() as int);
        assert(m * sum_from(bbas[d], 0) * p == m * prod_range(bbas, d, bbas.len() as int)) by (
        nonlinear_arith)
            requires
                prod_range(bbas, d, bbas.len() as int) == sum_from(bbas[d], 0) * p,
        ;
    }
}

/// One level on its own multiplies in exactly its total.
proof fn lemma_prod_range_one<S>(bbas: Seq<Seq<(S, u64)>>, d: int)
    ensures
        prod_range(bbas, d, d + 1) == sum_from(bbas[d], 0),
{
    assert(prod_range(bbas, d + 1, d + 1) == 1);
    assert(sum_from(bbas[d], 0) * 1 == sum_from(bbas[d], 0)) by (nonlinear_arith);
}

/// As `lemma_subtree_bounds`, for the tail of one level.
proof fn lemma_level_bounds<S: SetOperations>(
    bbas: Seq<Seq<(S, u64)>>,
    d: int,
    k: int,
    acc: S,
    m: int,
    q: S,
)
    requires
        0 <= m,
        0 <= d < bbas.len(),
    ensures
        0 <= level_mass(bbas, d, k, acc, m, q, true),
        0 <= level_mass(bbas, d, k, acc, m, q, false),
        level_mass(bbas, d, k, acc, m, q, true) + level_mass(bbas, d, k, acc, m, q, false) <= m
            * sum_from(bbas[d], k) * prod_range(bbas, d + 1, bbas.len() as int),
    decreases bbas.len() - d, 0int, bbas[d].len() - k,
{
    let p = prod_range(bbas, d + 1, bbas.len() as int);
    if k < 0 || k >= bbas[d].len() {
        assert(m * sum_from(bbas[d], k) * p >= 0) by (nonlinear_arith)
            requires
                0 <= m,
                sum_from(bbas[d], k) == 0,
        ;
    } else {
        let e = bbas[d][k];
        assert(0 <= m * e.1) by (nonlinear_arith)
            requires
                0 <= m,
                0 <= e.1,
        ;
        lemma_subtree_bounds(bbas, d + 1, acc.inter_spec(e.0), m * e.1, q);
        lemma_level_bounds(bbas, d, k + 1, acc, m, q);
        lemma_sum_from_bounds(bbas[d], k);
        lemma_sum_from_bounds(bbas[d], k + 1);
        lemma_prod_range_nonneg(bbas, d + 1, bbas.len() as int);
        assert((m * e.1) * p + m * sum_from(bbas[d], k + 1) * p <= m * sum_from(bbas[d], k)
            * p) by (nonlinear_arith)
            requires
                0 <= m,
                0 <= p,
                0 <= e.1,
                0 <= sum_from(bbas[d], k + 1),
                sum_from(bbas[d], k) == e.1 + sum_from(bbas[d], k + 1),
        ;
    }
}

/// Products of totals are nonnegative.
proof fn lemma_prod_range_nonneg<S>(bbas: Seq<Seq<(S, u64)>>, d: int, t: int)
    ensures
        0 <= prod_range(bbas, d, t),
    decreases t - d,
{
    if t > d {
        lemma_prod_range_nonneg(bbas, d + 1, t);
        lemma_sum_from_bounds(bbas[d], 0);
        assert(sum_from(bbas[d], 0) * prod_range(bbas, d + 1, t) >= 0) by (nonlinear_arith)
            requires
                0 <= sum_from(bbas[d], 0),
                0 <= prod_range(bbas, d + 1, t),
        ;
    }
}

/// As `lemma_subtree_bounds`, for the whole product.
proof fn lemma_top_bounds<S: SetOperations>(bbas: Seq<Seq<(S, u64)>>, k: int, q: S)
    requires
        bbas.len() >= 1,
    ensures
        0 <= top_mass(bbas, k, q, true),
        0 <= top_mass(bbas, k, q, false),
        top_mass(bbas, k, q, true) + top_mass(bbas, k, q, false) <= sum_from(bbas[0], k)
            * prod_range(bbas, 1, bbas.len() as int),
    decreases bbas[0].len() - k,
{
    let p = prod_range(bbas, 1, bbas.len() as int);
    if k < 0 || k >= bbas[0].len() {
        lemma_prod_range_nonneg(bbas, 1, bbas.len() as int);
        assert(sum_from(bbas[0], k) * p == 0) by (nonlinear_arith)
            requires
                sum_from(bbas[0], k) == 0,
        ;
    } else {
        let e = bbas[0][k];
        lemma_subtree_bounds(bbas, 1, e.0, e.1 as int, q);
        lemma_top_bounds(bbas, k + 1, q);
        lemma_sum_from_bounds(bbas[0], k + 1);
        lemma_prod_range_nonneg(bbas, 1, bbas.len() as int);
        assert((e.1 as int) * p + sum_from(bbas[0], k + 1) * p <= sum_from(bbas[0], k) * p) by (
        nonlinear_arith)
            requires
                0 <= p,
                0 <= e.1,
                0 <= sum_from(bbas[0], k + 1),
                sum_from(bbas[0], k) == e.1 + sum_from(bbas[0], k + 1),
        ;
    }
}

/// Walk the product of the assignments from level `d` on, reporting the
/// conflict mass and the mass supporting exactly `q`.
#[verifier::loop_isolation(false)]
fn walk<S: SetOperations + Copy>(
    bbas: &Vec<Vec<(S, u64)>>,
    d: usize,
    acc: S,
    m: u128,
    q: &S,
) -> (r: (u128, u128))
    requires
        d <= bbas@.len(),
        forall|t: int|
            d <= t <= bbas@.len() ==> m * #[trigger] prod_range(views_of(bbas@), d as int, t)
                <= u128::MAX,
    ensures
        r.0 == subtree_mass(views_of(bbas@), d as int, acc, m as int, *q, true),
        r.1 == subtree_mass(views_of(bbas@), d as int, acc, m as int, *q, false),
    decreases bbas@.len() - d,
{
    let ghost views = views_of(bbas@);
    if d == bbas.len() {
        if acc.is_empty() {
            return (m, 0);
        }
        if acc.is_subset(q) && q.is_subset(&acc) {
            return (0, m);
        }
        return (0, 0);
    }
    let mut ck: u128 = 0;
    let mut cs: u128 = 0;
    let n = bbas[d].len();
    let mut k: usize = 0;
    proof {
        lemma_level_bounds(views, d as int, 0, acc, m as int, *q);
        lemma_prod_range_one(views, d as int);
    }
    while k < n
        invariant
            k <= n,
            n == views[d as int].len(),
            ck + level_mass(views, d as int, k as int, acc, m as int, *q, true) == level_mass(
                views,
                d as int,
                0,
                acc,
                m as int,
                *q,
                true,
            ),
            cs + level_mass(views, d as int, k as int, acc, m as int, *q, false) == level_mass(
                views,
                d as int,
                0,
                acc,
                m as int,
                *q,
                false,
            ),
        decreases n - k,
    {
        let e = bbas[d][k];
        proof {
            lemma_sum_from_bounds(views[d as int], 0);
            lemma_sum_from_bounds(views[d as int], k as int);
            lemma_elem_le_sum_from(views[d as int], k as int);
            assert(m * (e.1 as int) <= m * sum_from(views[d as int], 0)) by (nonlinear_arith)
                requires
                    0 <= m,
                    0 <= e.1 <= sum_from(views[d as int], 0),
            ;
            assert(m * sum_from(views[d as int], 0) <= m * prod_range(
                views,
                d as int,
                d as int + 1,
            )) by (nonlinear_arith)
                requires
                    prod_range(views, d as int, d as int + 1) == sum_from(views[d as int], 0) * 1,
            ;
            assert forall|t: int|
                d + 1 <= t <= views.len() implies (m * (e.1 as int)) * #[trigger] prod_range(
                views,
                d + 1,
                t,
            ) <= u128::MAX by {
                lemma_prod_range_nonneg(views, d + 1, t);
                assert(m * prod_range(views, d as int, t) <= u128::MAX);
                assert((m * (e.1 as int)) * prod_range(views, d + 1, t) <= m * prod_range(
                    views,
                    d as int,
                    t,
                )) by (nonlinear_arith)
                    requires
                        0 <= m,
                        0 <= e.1 <= sum_from(views[d as int], 0),
                        0 <= prod_range(views, d + 1, t),
                        prod_range(views, d as int, t) == sum_from(views[d as int], 0)
                            * prod_range(views, d + 1, t),
                ;
            }
        }
        let m2 = m * (e.1 as u128);
        let (k1, s1) = walk(bbas, d + 1, acc.intersection(&e.0), m2, q);
        proof {
            assert(level_mass(views, d as int, k as int, acc, m as int, *q, true) == subtree_mass(
                views,
                d + 1,
                acc.inter_spec(e.0),
                (m as int) * (e.1 as int),
                *q,
                true,
            ) + level_mass(views, d as int, k + 1 as int, acc, m as int, *q, true));
            assert(level_mass(views, d as int, k as int, acc, m as int, *q, false) == subtree_mass(
                views,
                d + 1,
                acc.inter_spec(e.0),
                (m as int) * (e.1 as int),
                *q,
                false,
            ) + level_mass(views, d as int, k + 1 as int, acc, m as int, *q, false));
            lemma_subtree_bounds(views, d + 1, acc.inter_spec(e.0), (m as int) * (e.1 as int), *q);
            lemma_level_bounds(views, d as int, k + 1 as int, acc, m as int, *q);
            lemma_level_bounds(views, d as int, 0, acc, m as int, *q);
            assert(m * sum_from(views[d as int], 0) * prod_range(views, d + 1, views.len() as int)
                == m * prod_range(views, d as int, views.len() as int)) by (nonlinear_arith)
                requires
                    prod_range(views, d as int, views.len() as int) == sum_from(
                        views[d as int],
                        0,
                    ) * prod_range(views, d + 1, views.len() as int),
            ;
        }
        ck = ck + k1;
        cs = cs + s1;
        k += 1;
    }
    (ck, cs)
}

/// One element's mass is within the whole suffix total from any earlier
/// position.
proof fn lemma_elem_le_sum_from<S>(s: Seq<(S, u64)>, k: int)
    requires
        0 <= k < s.len(),
    ensures
        s[k].1 <= sum_from(s, 0),
    decreases k,
{
    lemma_sum_from_bounds(s, 0);
}

/// Compute the combined belief that Dempster's rule, applied to all of
/// `bba_s` at once, assigns to exactly the hypothesis `q`: the mass of
/// the product tuples whose intersection is exactly `q`, normalized by
/// `1 / (1 - K)` where `K` is the conflict mass.
///
/// Full contradiction (`K` equal to the whole pairing mass) leaves the
/// quotient undefined, so it is excluded by precondition here; a caller
/// that cannot rule it out should fuse through the combination rule,
/// which reports it as a recoverable `FullContradiction` error.
#[verifier::loop_isolation(false)]
pub fn comb_dempster_q<S: SetOperations + Copy>(bba_s: &Vec<Vec<(S, u64)>>, q: S) -> (r: u64)
    requires
        bba_s@.len() >= 1,
        forall|d: int|
            0 <= d < bba_s@.len() ==> sum_from(#[trigger] views_of(bba_s@)[d], 0) <= u64::MAX,
        forall|t: int|
            0 <= t <= bba_s@.len() ==> #[trigger] prod_range(views_of(bba_s@), 0, t) * UNIT
                <= u128::MAX,
        top_mass(views_of(bba_s@), 0, q, true) < prod_range(
            views_of(bba_s@),
            0,
            bba_s@.len() as int,
        ),
    ensures
        r == top_mass(views_of(bba_s@), 0, q, false) * UNIT / (prod_range(
            views_of(bba_s@),
            0,
            bba_s@.len() as int,
        ) - top_mass(views_of(bba_s@), 0, q, true)),
{
    let ghost views = views_of(bba_s@);
    let levels = bba_s.len();
    // the total pairing mass: the product of the assignments' totals
    let mut total: u128 = 1;
    let mut d: usize = 0;
    proof {
        lemma_prod_range_nonneg(views, 0, levels as int);
        assert(prod_range(views, 0, 0) == 1);
    }
    while d < levels
        invariant
            d <= levels,
            total == prod_range(views, 0, d as int),
        decreases levels - d,
    {
        let mut s: u128 = 0;
        let n = bba_s[d].len();
        let mut k: usize = n;
        proof {
            assert(sum_from(views[d as int], n as int) == 0);
        }
        while k > 0
            invariant
                k <= n,
                n == views[d as int].len(),
                s == sum_from(views[d as int], k as int),
            decreases k,
        {
            k -= 1;
            proof {
                lemma_sum_from_bounds(views[d as int], k as int);
                lemma_sum_from_partial_le(views[d as int], k as int);
            }
            s = s + (bba_s[d][k].1 as u128);
        }
        proof {
            assert(prod_range(views, 0, d + 1) == prod_range(views, 0, d as int) * prod_range(
                views,
                d as int,
                d + 1,
            )) by {
                lemma_prod_range_split(views, 0, d as int, d + 1);
            }
            lemma_prod_range_one(views, d as int);
            lemma_prod_range_nonneg(views, 0, d + 1);
            assert(prod_range(views, 0, d + 1) <= prod_range(views, 0, d + 1) * UNIT) by (
            nonlinear_arith)
                requires
                    0 <= prod_range(views, 0, d + 1),
                    UNIT >= 1,
            ;
        }
        total = total * s;
        d += 1;
    }
    // walk the product, accumulating conflict and exact support
    let mut ck: u128 = 0;
    let mut cs: u128 = 0;
    let n0 = bba_s[0].len();
    let mut k: usize = 0;
    proof {
        lemma_top_bounds(views, 0, q);
        assert(prod_range(views, 0, levels as int) == sum_from(views[0], 0) * prod_range(
            views,
            1,
            levels as int,
        ));
    }
    while k < n0
        invariant
            k <= n0,
            n0 == views[0].len(),
            ck + top_mass(views, k as int, q, true) == top_mass(views, 0, q, true),
            cs + top_mass(views, k as int, q, false) == top_mass(views, 0, q, false),
        decreases n0 - k,
    {
        let e = bba_s[0][k];
        proof {
            lemma_sum_from_bounds(views[0], 0);
            lemma_elem_le_sum_from(views[0], k as int);
            assert forall|t: int|
                1 <= t <= views.len() implies (e.1 as int) * #[trigger] prod_range(views, 1, t)
                <= u128::MAX by {
                lemma_prod_range_nonneg(views, 1, t);
                assert(prod_range(views, 0, t) == sum_from(views[0], 0) * prod_range(views, 1, t));
                assert(prod_range(views, 0, t) * UNIT <= u128::MAX);
                assert(prod_range(views, 0, t) <= prod_range(views, 0, t) * UNIT) by (
                nonlinear_arith)
                    requires
                        0 <= prod_range(views, 0, t),
                        UNIT >= 1,
                ;
                assert((e.1 as int) * prod_range(views, 1, t) <= sum_from(views[0], 0)
                    * prod_range(views, 1, t)) by (nonlinear_arith)
                    requires
                        0 <= e.1 <= sum_from(views[0], 0),
                        0 <= prod_range(views, 1, t),
                ;
            }
        }
        let (k1, s1) = walk(bba_s, 1, e.0, e.1 as u128, &q);
        proof {
            assert(top_mass(views, k as int, q, true) == subtree_mass(
                views,
                1,
                e.0,
                e.1 as int,
                q,
                true,
            ) + top_mass(views, k + 1 as int, q, true));
            assert(top_mass(views, k as int, q, false) == subtree_mass(
                views,
                1,
                e.0,
                e.1 as int,
                q,
                false,
            ) + top_mass(views, k + 1 as int, q, false));
            lemma_subtree_bounds(views, 1, e.0, e.1 as int, q);
            lemma_top_bounds(views, k + 1 as int, q);
            lemma_top_bounds(views, 0, q);
            assert(prod_range(views, 0, levels as int) <= prod_range(views, 0, levels as int)
                * UNIT) by (nonlinear_arith)
                requires
                    0 <= prod_range(views, 0, levels as int),
                    UNIT >= 1,
            ;
        }
        ck = ck + k1;
        cs = cs + s1;
        k += 1;
    }
    proof {
        assert(top_mass(views, n0 as int, q, true) == 0);
        assert(top_mass(views, n0 as int, q, false) == 0);
        lemma_top_bounds(views, 0, q);
        assert(prod_range(views, 0, levels as int) == sum_from(views[0], 0) * prod_range(
            views,
            1,
            levels as int,
        ));
        lemma_prod_range_nonneg(views, 0, levels as int);
        assert(prod_range(views, 0, levels as int) <= prod_range(views, 0, levels as int)
            * UNIT) by (nonlinear_arith)
            requires
                0 <= prod_range(views, 0, levels as int),
                UNIT >= 1,
        ;
    }
    let denom = total - ck;
    let scaled_support = cs * (UNIT as u128) / denom;
    proof {
        assert(cs <= denom);
        assert((cs as int) * (UNIT as int) <= (prod_range(views, 0, levels as int)) * (
        UNIT as int)) by (nonlinear_arith)
            requires
                0 <= cs <= prod_range(views, 0, levels as int),
                UNIT >= 1,
        ;
        assert(cs * (UNIT as u128) == (cs as int) * (UNIT as int));
        lemma_scaled_le_unit(cs as int, denom as int);
    }
    scaled_support as u64
}

/// A suffix total is at most the whole total.
proof fn lemma_sum_from_partial_le<S>(s: Seq<(S, u64)>, k: int)
    requires
        0 <= k,
    ensures
        sum_from(s, k) <= sum_from(s, 0),
    decreases k,
{
    if k > 0 {
        lemma_sum_from_partial_le(s, k - 1);
        lemma_sum_from_bounds(s, k);
        lemma_sum_from_bounds(s, 0);
        if k - 1 < s.len() {
            assert(sum_from(s, k - 1) == s[k - 1].1 + sum_from(s, k));
        }
    }
}

/// Products of totals split at any midpoint.
proof fn lemma_prod_range_split<S>(bbas: Seq<Seq<(S, u64)>>, d: int, mid: int, t: int)
    requires
        d <= mid <= t,
    ensures
        prod_range(bbas, d, t) == prod_range(bbas, d, mid) * prod_range(bbas, mid, t),
    decreases mid - d,
{
    if d == mid {
        assert(1 * prod_range(bbas, mid, t) == prod_range(bbas, mid, t)) by (nonlinear_arith);
    } else {
        lemma_prod_range_split(bbas, d + 1, mid, t);
        assert(sum_from(bbas[d], 0) * (prod_range(bbas, d + 1, mid) * prod_range(bbas, mid, t))
            == (sum_from(bbas[d], 0) * prod_range(bbas, d + 1, mid)) * prod_range(
            bbas,
            mid,
            t,
        )) by (nonlinear_arith);
    }
}

} // verus!
