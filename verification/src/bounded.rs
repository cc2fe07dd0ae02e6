//! A bounded priority queue over a fixed-capacity buffer that sorts
//! itself the moment it fills, and array-shaped entry points for the two
//! approximation strategies.
use vstd::prelude::*;

use crate::approx::{Approximation, KX, Summarize};
use crate::mass::sum_pairs;
use crate::set::SetAlgebra;

verus! {

/// A value ordered by an integer rank.
pub trait Ranked: Sized {
    /// The rank this value is ordered by.
    spec fn rank_spec(self) -> int;

    /// Compare two values by rank.
    fn rank_le(&self, o: &Self) -> (r: bool)
        ensures
            r == (self.rank_spec() <= o.rank_spec()),
    ;
}

impl Ranked for usize {
    open spec fn rank_spec(self) -> int {
        self as int
    }

    fn rank_le(&self, o: &Self) -> bool {
        *self <= *o
    }
}

impl Ranked for i32 {
    open spec fn rank_spec(self) -> int {
        self as int
    }

    fn rank_le(&self, o: &Self) -> bool {
        *self <= *o
    }
}

impl Ranked for (usize, i32) {
    open spec fn rank_spec(self) -> int {
        self.1 as int
    }

    fn rank_le(&self, o: &Self) -> bool {
        self.1 <= o.1
    }
}

/// Ranks never decrease along the sequence.
pub open spec fn sorted_by_rank<T: Ranked>(s: Seq<T>) -> bool {
    forall|i: int, j: int|
        0 <= i <= j < s.len() ==> (#[trigger] s[i]).rank_spec() <= (#[trigger] s[j]).rank_spec()
}

/// The position after the last element whose rank is at most `x`'s.
pub open spec fn upper_pos<T: Ranked>(s: Seq<T>, x: T) -> int
    decreases s.len(),
{
    if s.len() == 0 {
        0
    } else if s.first().rank_spec() > x.rank_spec() {
        0
    } else {
        1 + upper_pos(s.drop_first(), x)
    }
}

/// `upper_pos` always lands inside the sequence's insertion positions.
pub proof fn lemma_upper_pos_range<T: Ranked>(s: Seq<T>, x: T)
    ensures
        0 <= upper_pos(s, x) <= s.len(),
    decreases s.len(),
{
    if s.len() > 0 && s.first().rank_spec() <= x.rank_spec() {
        lemma_upper_pos_range(s.drop_first(), x);
    }
}

/// Characterize `upper_pos` by what lies on each side of it.
proof fn lemma_upper_pos_char<T: Ranked>(s: Seq<T>, x: T, i: int)
    requires
        0 <= i <= s.len(),
        forall|t: int| 0 <= t < i ==> (#[trigger] s[t]).rank_spec() <= x.rank_spec(),
        i < s.len() ==> s[i].rank_spec() > x.rank_spec(),
    ensures
        upper_pos(s, x) == i,
    decreases s.len(),
{
    if s.len() > 0 {
        if i == 0 {
        } else {
            assert(s[0].rank_spec() <= x.rank_spec());
            assert(forall|t: int| 0 <= t < s.len() - 1 ==> s.drop_first()[t] == s[t + 1]);
            lemma_upper_pos_char(s.drop_first(), x, i - 1);
        }
    }
}

/// The sequence ordered by ascending rank with a stable insertion sort:
/// each element in turn is placed after the existing elements of equal
/// rank, so ties keep their arrival order.
pub open spec fn sort_stable<T: Ranked>(s: Seq<T>) -> Seq<T>
    decreases s.len(),
{
    if s.len() == 0 {
        Seq::empty()
    } else {
        let prev = sort_stable(s.drop_last());
        prev.insert(upper_pos(prev, s.last()), s.last())
    }
}

/// Place `x` after the last element whose rank is at most `x`'s, keeping
/// the buffer sorted.
#[verifier::loop_isolation(false)]
fn sorted_insert<T: Ranked>(buf: &mut Vec<T>, x: T)
    requires
        sorted_by_rank(old(buf)@),
    ensures
        0 <= upper_pos(old(buf)@, x) <= old(buf)@.len(),
        final(buf)@ == old(buf)@.insert(upper_pos(old(buf)@, x), x),
        final(buf)@.len() == old(buf)@.len() + 1,
        sorted_by_rank(final(buf)@),
{
    let ghost base = buf@;
    let n = buf.len();
    let mut i: usize = 0;
    while i < n
        invariant
            i <= n,
            n == base.len(),
            buf@ == base,
            forall|t: int| 0 <= t < i ==> (#[trigger] base[t]).rank_spec() <= x.rank_spec(),
        decreases n - i,
    {
        if !buf[i].rank_le(&x) {
            break ;
        }
        i += 1;
    }
    proof {
        lemma_upper_pos_range(base, x);
        lemma_upper_pos_char(base, x, i as int);
    }
    buf.insert(i, x);
    proof {
        let t = base.insert(i as int, x);
        assert(buf@ == t);
        assert forall|p: int, q: int|
            0 <= p <= q < t.len() implies (#[trigger] t[p]).rank_spec() <= (
        #[trigger] t[q]).rank_spec() by {
            if p < i && q < i {
                assert(t[p] == base[p] && t[q] == base[q]);
            } else if p < i && q == i {
                assert(t[p] == base[p]);
            } else if p < i && q > i {
                assert(t[p] == base[p] && t[q] == base[q - 1]);
            } else if p == i && q == i {
            } else if p == i && q > i {
                assert(t[q] == base[q - 1]);
                assert(base[q - 1].rank_spec() > x.rank_spec() || base[i as int].rank_spec()
                    <= base[q - 1].rank_spec());
                assert(base[i as int].rank_spec() > x.rank_spec());
            } else {
                assert(t[p] == base[p - 1] && t[q] == base[q - 1]);
            }
        }
    }
}

/// A priority queue that holds at most `N` values. While it is filling,
/// values sit in arrival order; the insertion that fills it sorts the
/// buffer by ascending rank, and from then on an insertion evicts the
/// smallest value only when the incoming rank is strictly larger, so on a
/// rank tie the existing occupant wins.
pub struct BoundedPriorityQueue<T: Ranked, const N: usize> {
    buf: Vec<T>,
}

impl<T: Ranked, const N: usize> BoundedPriorityQueue<T, N> {
    /// The retained values: in arrival order while the queue is filling,
    /// in ascending rank order once it has been full.
    pub closed spec fn entries(self) -> Seq<T> {
        self.buf@
    }

    /// Never more than `N` values, and sorted once full.
    pub open spec fn wf(self) -> bool {
        &&& self.entries().len() <= N
        &&& self.entries().len() == N ==> sorted_by_rank(self.entries())
    }

    /// Create an empty queue.
    pub fn new() -> (r: Self)
        ensures
            r.wf(),
            r.entries() == Seq::<T>::empty(),
    {
        BoundedPriorityQueue { buf: Vec::new() }
    }

    /// Insert a value. While the queue is filling the value is appended in
    /// arrival order, and the insertion that fills the queue sorts it;
    /// once full, the value replaces the smallest-ranked one only if its
    /// own rank is strictly larger, so on a tie the existing occupant
    /// stays.
    #[verifier::loop_isolation(false)]
    pub fn insert_by_key(&mut self, x: T)
        requires
            old(self).wf(),
        ensures
            final(self).wf(),
            old(self).entries().len() + 1 < N ==> final(self).entries() == old(
                self,
            ).entries().push(x),
            old(self).entries().len() + 1 == N ==> final(self).entries() == sort_stable(
                old(self).entries().push(x),
            ),
            old(self).entries().len() >= N && (N == 0 || x.rank_spec() <= old(
                self,
            ).entries()[0].rank_spec()) ==> final(self).entries() == old(self).entries(),
            old(self).entries().len() >= N && N > 0 && x.rank_spec() > old(
                self,
            ).entries()[0].rank_spec() ==> final(self).entries() == old(
                self,
            ).entries().drop_first().insert(
                upper_pos(old(self).entries().drop_first(), x),
                x,
            ),
    {
        let ghost s0 = self.buf@;
        if self.buf.len() >= N {
            if N == 0 {
                return ;
            }
            if x.rank_le(&self.buf[0]) {
                return ;
            }
            self.buf.remove(0);
            proof {
                assert(self.buf@ =~= s0.drop_first());
                assert(forall|t: int| 0 <= t < s0.len() - 1 ==> s0.drop_first()[t] == s0[t + 1]);
                assert(sorted_by_rank(s0));
                assert(sorted_by_rank(self.buf@));
            }
            sorted_insert(&mut self.buf, x);
            return ;
        }
        self.buf.push(x);
        if self.buf.len() == N {
            // the queue just filled: bring it into rank order
            let ghost orig = self.buf@;
            let mut tmp: Vec<T> = Vec::new();
            proof {
                assert(orig.take(0) =~= Seq::<T>::empty());
            }
            while self.buf.len() > 0
                invariant
                    self.buf@.len() <= orig.len(),
                    self.buf@ =~= orig.skip(orig.len() - self.buf@.len()),
                    tmp@ == sort_stable(orig.take(orig.len() - self.buf@.len())),
                    tmp@.len() + self.buf@.len() == orig.len(),
                    sorted_by_rank(tmp@),
                decreases self.buf@.len(),
            {
                let ghost p = orig.len() - self.buf@.len();
                proof {
                    assert(self.buf@[0] == orig[p]);
                    assert(orig.take(p + 1).drop_last() =~= orig.take(p));
                    assert(orig.take(p + 1).last() == orig[p]);
                }
                let e = self.buf.remove(0);
                proof {
                    assert(self.buf@ =~= orig.skip(p + 1));
                }
                sorted_insert(&mut tmp, e);
            }
            proof {
                assert(orig.take(orig.len() as int) =~= orig);
            }
            self.buf = tmp;
        }
    }

    /// Insert a value ordered by its own rank.
    pub fn insert(&mut self, x: T)
        requires
            old(self).wf(),
        ensures
            final(self).wf(),
            old(self).entries().len() + 1 < N ==> final(self).entries() == old(
                self,
            ).entries().push(x),
            old(self).entries().len() + 1 == N ==> final(self).entries() == sort_stable(
                old(self).entries().push(x),
            ),
            old(self).entries().len() >= N && (N == 0 || x.rank_spec() <= old(
                self,
            ).entries()[0].rank_spec()) ==> final(self).entries() == old(self).entries(),
            old(self).entries().len() >= N && N > 0 && x.rank_spec() > old(
                self,
            ).entries()[0].rank_spec() ==> final(self).entries() == old(
                self,
            ).entries().drop_first().insert(
                upper_pos(old(self).entries().drop_first(), x),
                x,
            ),
    {
        self.insert_by_key(x)
    }

    /// Hand back the retained values.
    pub fn consume(self) -> (r: Vec<T>)
        ensures
            r@ == self.entries(),
    {
        self.buf
    }
}

/// Every slot of an approximated assignment made plain: occupied slots
/// keep their pair, unoccupied slots become a massless empty set.
pub open spec fn fill_slots<S: SetAlgebra>(s: Seq<Option<(S, u64)>>) -> Seq<(S, u64)> {
    s.map_values(
        |o: Option<(S, u64)>|
            match o {
                Some(p) => p,
                None => (S::empty_spec(), 0u64),
            },
    )
}

/// Turn a bounded assignment into exactly `N` plain pairs.
#[verifier::loop_isolation(false)]
fn flatten_slots<const N: usize, S: SetAlgebra>(slots: Vec<Option<(S, u64)>>) -> (r: Vec<(S, u64)>)
    requires
        slots@.len() == N,
    ensures
        r@ == fill_slots(slots@),
{
    let mut out: Vec<(S, u64)> = Vec::new();
    let mut i: usize = 0;
    while i < N
        invariant
            i <= N,
            out@.len() == i,
            forall|t: int| 0 <= t < i ==> out@[t] == fill_slots(slots@)[t],
        decreases N - i,
    {
        match slots[i] {
            Some(p) => out.push(p),
            None => {
                let e = S::empty();
                out.push((e, 0));
            },
        }
        i += 1;
    }
    proof {
        assert(out@ =~= fill_slots(slots@));
    }
    out
}

/// Bound `bba` to `N` focal elements with the Summarize strategy: the
/// `N - 1` most massive elements plus a residual element carrying the
/// union and summed mass of everything else.
pub fn summarize<const N: usize, S: SetAlgebra>(bba: &Vec<(S, u64)>) -> (r: Vec<(S, u64)>)
    requires
        sum_pairs(bba@) <= u64::MAX,
    ensures
        r@.len() == N,
        exists|o: Seq<Option<(S, u64)>>|
            #[trigger] <Summarize as Approximation<S>>::approx_post(bba@, N as nat, o) && r@
                == fill_slots(o),
{
    let slots = Summarize::approx::<N>(bba);
    flatten_slots::<N, S>(slots)
}

/// Bound `bba` to `N` focal elements with the Top-N strategy: the `N`
/// most massive elements, renormalized to one unit of mass.
pub fn kx<const N: usize, S: SetAlgebra>(bba: &Vec<(S, u64)>) -> (r: Vec<(S, u64)>)
    requires
        sum_pairs(bba@) <= u64::MAX,
    ensures
        r@.len() == N,
        exists|o: Seq<Option<(S, u64)>>|
            #[trigger] <KX as Approximation<S>>::approx_post(bba@, N as nat, o) && r@ == fill_slots(
                o,
            ),
{
    let slots = KX::approx::<N>(bba);
    flatten_slots::<N, S>(slots)
}

} // verus!
