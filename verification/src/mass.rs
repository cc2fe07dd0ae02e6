//! The fixed-point mass model and summation helpers shared by the crate.
use vstd::prelude::*;

verus! {

/// One whole unit of mass. Masses are fixed-point numbers counted in
/// micro-units (parts per million), so an assignment whose element masses
/// sum to `UNIT` carries total mass 1.
pub const UNIT: u64 = 1_000_000;

/// The mass held by one slot of a bounded assignment: `Some` slots
/// contribute their mass, empty slots contribute nothing.
pub open spec fn slot_mass<S>(o: Option<(S, u64)>) -> int {
    match o {
        Some(p) => p.1 as int,
        None => 0,
    }
}

/// Total mass of a sequence of `(hypothesis, mass)` pairs.
pub open spec fn sum_pairs<S>(s: Seq<(S, u64)>) -> int
    decreases s.len(),
{
    if s.len() == 0 {
        0
    } else {
        sum_pairs(s.drop_last()) + s.last().1
    }
}

/// Total mass of a bounded assignment with optional slots.
pub open spec fn sum_slots<S>(s: Seq<Option<(S, u64)>>) -> int
    decreases s.len(),
{
    if s.len() == 0 {
        0
    } else {
        sum_slots(s.drop_last()) + slot_mass(s.last())
    }
}

/// The payloads of the `Some` slots, in slot order.
pub open spec fn somes<T>(s: Seq<Option<T>>) -> Seq<T>
    decreases s.len(),
{
    if s.len() == 0 {
        Seq::empty()
    } else {
        match s.last() {
            Some(p) => somes(s.drop_last()).push(p),
            None => somes(s.drop_last()),
        }
    }
}

/// There are never more occupied slots than slots.
pub proof fn lemma_somes_len_le<T>(s: Seq<Option<T>>)
    ensures
        somes(s).len() <= s.len(),
    decreases s.len(),
{
    if s.len() > 0 {
        lemma_somes_len_le(s.drop_last());
    }
}

pub proof fn lemma_sum_pairs_nonneg<S>(s: Seq<(S, u64)>)
    ensures
        sum_pairs(s) >= 0,
    decreases s.len(),
{
    if s.len() > 0 {
        lemma_sum_pairs_nonneg(s.drop_last());
    }
}

pub proof fn lemma_sum_slots_nonneg<S>(s: Seq<Option<(S, u64)>>)
    ensures
        sum_slots(s) >= 0,
    decreases s.len(),
{
    if s.len() > 0 {
        lemma_sum_slots_nonneg(s.drop_last());
    }
}

/// Total mass of a bounded assignment is the total mass of its occupied slots.
pub proof fn lemma_sum_slots_somes<S>(s: Seq<Option<(S, u64)>>)
    ensures
        sum_slots(s) == sum_pairs(somes(s)),
    decreases s.len(),
{
    if s.len() > 0 {
        lemma_sum_slots_somes(s.drop_last());
        match s.last() {
            Some(p) => {
                assert(somes(s) == somes(s.drop_last()).push(p));
                assert(somes(s).drop_last() == somes(s.drop_last()));
            },
            None => {},
        }
    }
}

/// Replacing one entry changes the total by the difference of the masses.
pub proof fn lemma_sum_replace<S>(s: Seq<(S, u64)>, i: int, p: (S, u64))
    requires
        0 <= i < s.len(),
    ensures
        sum_pairs(s.update(i, p)) == sum_pairs(s) - s[i].1 + p.1,
    decreases s.len(),
{
    let t = s.update(i, p);
    if i == s.len() - 1 {
        assert(t.drop_last() =~= s.drop_last());
    } else {
        assert(forall|j: int| 0 <= j < s.len() - 1 ==> s.drop_last()[j] == s[j]);
        lemma_sum_replace(s.drop_last(), i, p);
        assert(t.drop_last() =~= s.drop_last().update(i, p));
        assert(t.last() == s.last());
    }
}

/// Partial slot sums never exceed the whole.
pub proof fn lemma_sum_slots_take_le<S>(s: Seq<Option<(S, u64)>>, j: int)
    requires
        0 <= j <= s.len(),
    ensures
        sum_slots(s.take(j)) <= sum_slots(s),
    decreases s.len() - j,
{
    if j < s.len() {
        lemma_sum_slots_take_le(s, j + 1);
        assert(s.take(j + 1).drop_last() =~= s.take(j));
        assert(s.take(j + 1).last() == s[j]);
    } else {
        assert(s.take(j) =~= s);
    }
}

/// Replacing one slot changes the total by the difference of the masses.
pub proof fn lemma_sum_slots_replace<S>(s: Seq<Option<(S, u64)>>, i: int, o: Option<(S, u64)>)
    requires
        0 <= i < s.len(),
    ensures
        sum_slots(s.update(i, o)) == sum_slots(s) - slot_mass(s[i]) + slot_mass(o),
    decreases s.len(),
{
    let t = s.update(i, o);
    if i == s.len() - 1 {
        assert(t.drop_last() =~= s.drop_last());
    } else {
        assert(forall|j: int| 0 <= j < s.len() - 1 ==> s.drop_last()[j] == s[j]);
        lemma_sum_slots_replace(s.drop_last(), i, o);
        assert(t.drop_last() =~= s.drop_last().update(i, o));
        assert(t.last() == s.last());
    }
}

/// Each occupied slot's mass is bounded by the total.
pub proof fn lemma_sum_slots_bounds_each<S>(s: Seq<Option<(S, u64)>>, i: int)
    requires
        0 <= i < s.len(),
    ensures
        slot_mass(s[i]) <= sum_slots(s),
    decreases s.len(),
{
    lemma_sum_slots_nonneg(s.drop_last());
    if i < s.len() - 1 {
        lemma_sum_slots_bounds_each(s.drop_last(), i);
    }
}

/// Each element of a mass sequence is bounded by the total.
pub proof fn lemma_sum_pairs_bounds_each<S>(s: Seq<(S, u64)>, i: int)
    requires
        0 <= i < s.len(),
    ensures
        s[i].1 <= sum_pairs(s),
    decreases s.len(),
{
    lemma_sum_pairs_nonneg(s.drop_last());
    if i < s.len() - 1 {
        lemma_sum_pairs_bounds_each(s.drop_last(), i);
    }
}

} // verus!
