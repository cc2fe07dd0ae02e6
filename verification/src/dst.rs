//! Core Dempster-Shafer operations: `bel` and `pl` compute belief and
//! plausibility, and `comb_approx` folds a collection of mass assignments
//! through approximation and combination.
use vstd::prelude::*;

use crate::approx::Approximation;
use crate::comb::{CombRule, FusionError};
use crate::mass::{
    UNIT,
    somes,
    sum_pairs,
    sum_slots,
    lemma_somes_len_le,
};
use crate::set::SetAlgebra;

verus! {

/// The belief in `q`: the mass of all focal elements that imply `q`
/// (are subsets of it).
pub open spec fn bel_spec<S: SetAlgebra>(bba: Seq<(S, u64)>, q: S) -> int
    decreases bba.len(),
{
    if bba.len() == 0 {
        0
    } else {
        bel_spec(bba.drop_last(), q) + if bba.last().0.subset_spec(q) {
            bba.last().1 as int
        } else {
            0
        }
    }
}

/// Belief is nonnegative and bounded by the total mass.
pub proof fn lemma_bel_le_sum<S: SetAlgebra>(bba: Seq<(S, u64)>, q: S)
    ensures
        0 <= bel_spec(bba, q) <= sum_pairs(bba),
    decreases bba.len(),
{
    if bba.len() > 0 {
        lemma_bel_le_sum(bba.drop_last(), q);
    }
}

/// Compute the belief of `q` given a mass assignment.
#[verifier::loop_isolation(false)]
pub fn bel<S: SetAlgebra>(bba: &Vec<(S, u64)>, q: &S) -> (r: u64)
    requires
        sum_pairs(bba@) <= u64::MAX,
    ensures
        r == bel_spec(bba@, *q),
{
    let mut acc: u64 = 0;
    let n = bba.len();
    let mut i: usize = 0;
    proof {
        assert(bba@.take(0) =~= Seq::<(S, u64)>::empty());
    }
    while i < n
        invariant
            i <= n,
            acc == bel_spec(bba@.take(i as int), *q),
        decreases n - i,
    {
        proof {
            assert(bba@.take(i + 1 as int).drop_last() =~= bba@.take(i as int));
            assert(bba@.take(i + 1 as int).last() == bba@[i as int]);
            lemma_bel_le_sum(bba@.take(i + 1 as int), *q);
            lemma_sum_take_le_pairs(bba@, i + 1 as int);
        }
        if bba[i].0.is_subset(q) {
            acc = acc + bba[i].1;
        }
        i += 1;
    }
    proof {
        assert(bba@.take(n as int) =~= bba@);
    }
    acc
}

/// Partial sums never exceed the whole.
proof fn lemma_sum_take_le_pairs<S>(s: Seq<(S, u64)>, j: int)
    requires
        0 <= j <= s.len(),
    ensures
        sum_pairs(s.take(j)) <= sum_pairs(s),
    decreases s.len() - j,
{
    if j < s.len() {
        lemma_sum_take_le_pairs(s, j + 1);
        assert(s.take(j + 1).drop_last() =~= s.take(j));
        assert(s.take(j + 1).last() == s[j]);
    } else {
        assert(s.take(j) =~= s);
    }
}

/// Compute the plausibility of `q` given a mass assignment: one unit minus
/// the belief of the complement.
pub fn pl<S: SetAlgebra>(bba: &Vec<(S, u64)>, q: &S) -> (r: u64)
    requires
        sum_pairs(bba@) <= UNIT,
    ensures
        r == UNIT - bel_spec(bba@, q.not_spec()),
{
    let nq = q.not();
    proof {
        lemma_bel_le_sum(bba@, nq);
    }
    let b = bel(bba, &nq);
    UNIT - b
}

/// Belief in `q` and belief in its complement never together exceed the
/// total mass, provided empty focal elements carry no mass.
proof fn lemma_bel_pair<S: SetAlgebra>(bba: Seq<(S, u64)>, q: S)
    requires
        forall|i: int|
            0 <= i < bba.len() ==> ((#[trigger] bba[i]).0.is_empty_spec() ==> bba[i].1 == 0),
    ensures
        bel_spec(bba, q) + bel_spec(bba, q.not_spec()) <= sum_pairs(bba),
    decreases bba.len(),
{
    if bba.len() > 0 {
        assert(forall|i: int| 0 <= i < bba.len() - 1 ==> bba.drop_last()[i] == bba[i]);
        lemma_bel_pair(bba.drop_last(), q);
        let p = bba.last().0;
        if p.subset_spec(q) && p.subset_spec(q.not_spec()) {
            S::lemma_subset_of_both(p, q);
            assert(bba[bba.len() - 1].1 == 0);
        }
    }
}

/// Belief never exceeds plausibility: for every `q`,
/// `bel(m, q) <= pl(m, q)` whenever the assignment's mass is within one
/// unit and empty focal elements carry no mass.
pub proof fn lemma_bel_le_pl<S: SetAlgebra>(bba: Seq<(S, u64)>, q: S)
    requires
        sum_pairs(bba) <= UNIT,
        forall|i: int|
            0 <= i < bba.len() ==> ((#[trigger] bba[i]).0.is_empty_spec() ==> bba[i].1 == 0),
    ensures
        bel_spec(bba, q) <= UNIT - bel_spec(bba, q.not_spec()),
{
    lemma_bel_pair(bba, q);
    lemma_bel_le_sum(bba, q);
    lemma_bel_le_sum(bba, q.not_spec());
}

/// The element views of a collection of assignments.
pub open spec fn views_of<S>(bbas: Seq<Vec<(S, u64)>>) -> Seq<Seq<(S, u64)>> {
    bbas.map_values(|v: Vec<(S, u64)>| v@)
}

/// An assignment padded with massless empty-set slots up to `n` elements.
pub open spec fn pad_assignment<S: SetAlgebra>(s: Seq<(S, u64)>, n: nat) -> Seq<(S, u64)> {
    s + Seq::new((n - s.len()) as nat, |i: int| (S::empty_spec(), 0u64))
}

/// The left fold of the first `i` assignments through approximation and
/// combination reached the bounded state `acc`: the first assignment
/// approximated, and each further one approximated, fused in, and
/// re-approximated.
pub open spec fn chain_ok<S: SetAlgebra, A: Approximation<S>, C: CombRule<S>>(
    bbas: Seq<Seq<(S, u64)>>,
    n: nat,
    i: int,
    acc: Seq<Option<(S, u64)>>,
) -> bool
    decreases i,
{
    if i < 1 || i > bbas.len() {
        false
    } else if i == 1 {
        A::approx_post(bbas[0], n, acc)
    } else {
        exists|prev: Seq<Option<(S, u64)>>, step: Seq<Option<(S, u64)>>, fused: Seq<(S, u64)>|
            {
                &&& #[trigger] C::comb_ok_post(prev, step, fused)
                &&& chain_ok::<S, A, C>(bbas, n, i - 1, prev)
                &&& A::approx_post(bbas[i - 1], n, step)
                &&& !C::comb_err(prev, step)
                &&& A::approx_post(fused, n, acc)
            }
    }
}

/// The left fold hit full contradiction at step `i`.
pub open spec fn chain_err<S: SetAlgebra, A: Approximation<S>, C: CombRule<S>>(
    bbas: Seq<Seq<(S, u64)>>,
    n: nat,
    i: int,
) -> bool {
    &&& 2 <= i <= bbas.len()
    &&& exists|prev: Seq<Option<(S, u64)>>, step: Seq<Option<(S, u64)>>|
        {
            &&& #[trigger] chain_ok::<S, A, C>(bbas, n, i - 1, prev)
            &&& #[trigger] A::approx_post(bbas[i - 1], n, step)
            &&& C::comb_err(prev, step)
        }
}

/// Combine a collection of mass assignments with an approximation
/// strategy `A` and a combination rule `C`: approximate each input to `N`
/// focal elements and fold left through the rule, re-approximating after
/// every step. The result is padded with `(empty, 0)` to exactly `N`
/// elements.
#[verifier::loop_isolation(false)]
pub fn comb_approx<const N: usize, S: SetAlgebra, A: Approximation<S>, C: CombRule<S>>(
    bbas: &Vec<Vec<(S, u64)>>,
) -> (r: Result<Vec<(S, u64)>, FusionError>)
    requires
        forall|i: int| 0 <= i < bbas@.len() ==> sum_pairs((#[trigger] bbas@[i])@) <= UNIT,
    ensures
        r == Err::<Vec<(S, u64)>, FusionError>(FusionError::EmptyInput) <==> bbas@.len() == 0,
        r is Ok ==> r->Ok_0@.len() == N,
        r is Ok ==> exists|acc: Seq<Option<(S, u64)>>|
            {
                &&& #[trigger] chain_ok::<S, A, C>(
                    views_of(bbas@),
                    N as nat,
                    bbas@.len() as int,
                    acc,
                )
                &&& r->Ok_0@ == pad_assignment(somes(acc), N as nat)
                &&& sum_slots(acc) <= UNIT
            },
        r == Err::<Vec<(S, u64)>, FusionError>(FusionError::FullContradiction) ==> exists|i: int|
            #[trigger] chain_err::<S, A, C>(views_of(bbas@), N as nat, i),
{
    let ghost views = views_of(bbas@);
    let len = bbas.len();
    if len == 0 {
        return Err(FusionError::EmptyInput);
    }
    let mut acc: Vec<Option<(S, u64)>> = A::approx::<N>(&bbas[0]);
    let mut i: usize = 1;
    while i < len
        invariant
            1 <= i <= len,
            acc@.len() == N,
            chain_ok::<S, A, C>(views, N as nat, i as int, acc@),
            sum_slots(acc@) <= UNIT,
        decreases len - i,
    {
        let step = A::approx::<N>(&bbas[i]);
        let ghost prev = acc@;
        match C::comb::<N>(&acc, &step) {
            Ok(fused) => {
                acc = A::approx::<N>(&fused);
                proof {
                    assert(C::comb_ok_post(prev, step@, fused@) && chain_ok::<S, A, C>(
                        views,
                        N as nat,
                        i as int,
                        prev,
                    ) && A::approx_post(views[i as int], N as nat, step@) && !C::comb_err(
                        prev,
                        step@,
                    ) && A::approx_post(fused@, N as nat, acc@));
                    assert(chain_ok::<S, A, C>(views, N as nat, i + 1 as int, acc@));
                }
            },
            Err(e) => {
                proof {
                    assert(chain_ok::<S, A, C>(views, N as nat, i as int, prev) && A::approx_post(
                        views[i as int],
                        N as nat,
                        step@,
                    ) && C::comb_err(prev, step@));
                    assert(chain_err::<S, A, C>(views, N as nat, i + 1 as int));
                }
                return Err(e);
            },
        }
        i += 1;
    }
    // unload the occupied slots and pad with massless empty sets
    let ghost done = acc@;
    let mut out: Vec<(S, u64)> = Vec::new();
    let n_slots = acc.len();
    let mut k: usize = 0;
    proof {
        assert(acc@.take(0) =~= Seq::<Option<(S, u64)>>::empty());
        lemma_somes_len_le(acc@);
    }
    while k < n_slots
        invariant
            k <= n_slots,
            out@ == somes(done.take(k as int)),
            acc@ == done,
            out@.len() <= k,
        decreases n_slots - k,
    {
        proof {
            assert(done.take(k + 1 as int).drop_last() =~= done.take(k as int));
            assert(done.take(k + 1 as int).last() == done[k as int]);
        }
        if let Some(p) = acc[k] {
            out.push(p);
        }
        k += 1;
    }
    proof {
        assert(done.take(n_slots as int) =~= done);
        lemma_somes_len_le(done);
    }
    while out.len() < N
        invariant
            somes(done).len() <= out@.len() <= N,
            out@.take(somes(done).len() as int) == somes(done),
            forall|t: int| somes(done).len() <= t < out@.len() ==> out@[t] == (S::empty_spec(), 0u64),
        decreases N - out@.len(),
    {
        let e = S::empty();
        out.push((e, 0));
        proof {
            assert(out@.drop_last().take(somes(done).len() as int) == out@.take(
                somes(done).len() as int,
            ));
        }
    }
    proof {
        assert(out@ =~= pad_assignment(somes(done), N as nat));
        assert(chain_ok::<S, A, C>(views, N as nat, len as int, done) && out@ == pad_assignment(
            somes(done),
            N as nat,
        ) && sum_slots(done) <= UNIT);
    }
    Ok(out)
}

} // verus!
