use vstd::prelude::*;

use crate::state::{idx_of, tick_step, State};

verus! {

/// Number of census slots: one per disease state.
pub const NSTATES: usize = 7;

/// How many entries of `s` fall in census slot `k`.
pub open spec fn census(s: Seq<State>, k: int) -> nat
    decreases s.len(),
{
    if s.len() == 0 {
        0
    } else {
        census(s.drop_last(), k) + (if idx_of(s.last()) == k {
            1nat
        } else {
            0nat
        })
    }
}

pub broadcast proof fn lemma_census_push(s: Seq<State>, v: State, k: int)
    ensures
        #[trigger] census(s.push(v), k) == census(s, k) + (if idx_of(v) == k {
            1nat
        } else {
            0nat
        }),
{
    assert(s.push(v).drop_last() =~= s);
}

pub proof fn lemma_census_update(s: Seq<State>, i: int, v: State, k: int)
    requires
        0 <= i < s.len(),
    ensures
        census(s.update(i, v), k) == census(s, k) + (if idx_of(v) == k {
            1nat
        } else {
            0nat
        }) - (if idx_of(s[i]) == k {
            1nat
        } else {
            0nat
        }),
    decreases s.len(),
{
    if i == s.len() - 1 {
        assert(s.update(i, v).drop_last() =~= s.drop_last());
        assert(s.update(i, v).last() == v);
    } else {
        lemma_census_update(s.drop_last(), i, v, k);
        assert(s.update(i, v).drop_last() =~= s.drop_last().update(i, v));
        assert(s.update(i, v).last() == s.last());
    }
}

/// Every agent sits in exactly one slot, so the seven census counts
/// always sum to the number of agents.
pub proof fn lemma_census_conservation(s: Seq<State>)
    ensures
        census(s, 0) + census(s, 1) + census(s, 2) + census(s, 3) + census(s, 4) + census(s, 5)
            + census(s, 6) == s.len(),
    decreases s.len(),
{
    if s.len() > 0 {
        lemma_census_conservation(s.drop_last());
        assert(0 <= idx_of(s.last()) < 7);
    }
}

/// A slot holds at least one agent whenever some agent is in it.
pub proof fn lemma_census_member(s: Seq<State>, i: int)
    requires
        0 <= i < s.len(),
    ensures
        census(s, idx_of(s[i])) >= 1,
    decreases s.len(),
{
    if i == s.len() - 1 {
    } else {
        lemma_census_member(s.drop_last(), i);
        assert(s.drop_last()[i] == s[i]);
    }
}

/// Two distinct slots together never hold more agents than there are.
pub proof fn lemma_census_pair_bound(s: Seq<State>, k1: int, k2: int)
    requires
        k1 != k2,
    ensures
        census(s, k1) + census(s, k2) <= s.len(),
    decreases s.len(),
{
    if s.len() > 0 {
        lemma_census_pair_bound(s.drop_last(), k1, k2);
    }
}

pub proof fn lemma_census_bound(s: Seq<State>, k: int)
    ensures
        census(s, k) <= s.len(),
    decreases s.len(),
{
    if s.len() > 0 {
        lemma_census_bound(s.drop_last(), k);
    }
}

/// If every agent in slot `k` of `a` is still in slot `k` in `b`
/// (pointwise), the census of `k` cannot shrink.
pub proof fn lemma_census_pointwise_monotone(a: Seq<State>, b: Seq<State>, k: int)
    requires
        a.len() == b.len(),
        forall|i: int| 0 <= i < a.len() && idx_of(a[i]) == k ==> idx_of(#[trigger] b[i]) == k,
    ensures
        census(b, k) >= census(a, k),
    decreases a.len(),
{
    if a.len() > 0 {
        lemma_census_pointwise_monotone(a.drop_last(), b.drop_last(), k);
        assert(forall|i: int|
            0 <= i < a.len() - 1 ==> a.drop_last()[i] == a[i] && b.drop_last()[i] == b[i]);
        assert(idx_of(a.last()) == k ==> idx_of(b.last()) == k) by {
            assert(a.last() == a[a.len() - 1] && b.last() == b[a.len() - 1]);
        }
    }
}

/// How many positions two equal-length state vectors differ at.
pub open spec fn diff_count(a: Seq<State>, b: Seq<State>) -> nat
    decreases a.len(),
{
    if a.len() == 0 || b.len() == 0 {
        0
    } else {
        diff_count(a.drop_last(), b.drop_last()) + (if a.last() == b.last() {
            0nat
        } else {
            1nat
        })
    }
}

pub proof fn lemma_diff_count_refl(a: Seq<State>)
    ensures
        diff_count(a, a) == 0,
    decreases a.len(),
{
    if a.len() > 0 {
        lemma_diff_count_refl(a.drop_last());
    }
}

pub proof fn lemma_diff_count_update(a: Seq<State>, b: Seq<State>, i: int, v: State)
    requires
        a.len() == b.len(),
        0 <= i < a.len(),
    ensures
        diff_count(a, b.update(i, v)) == diff_count(a, b) + (if a[i] == v {
            0nat
        } else {
            1nat
        }) - (if a[i] == b[i] {
            0nat
        } else {
            1nat
        }),
    decreases a.len(),
{
    if i == a.len() - 1 {
        assert(b.update(i, v).drop_last() =~= b.drop_last());
        assert(b.update(i, v).last() == v);
    } else {
        lemma_diff_count_update(a.drop_last(), b.drop_last(), i, v);
        assert(b.update(i, v).drop_last() =~= b.drop_last().update(i, v));
        assert(b.update(i, v).last() == b.last());
        assert(a.drop_last()[i] == a[i] && b.drop_last()[i] == b[i]);
    }
}

/// A slot nobody occupies counts zero.
pub proof fn lemma_census_none(s: Seq<State>, k: int)
    requires
        forall|j: int| 0 <= j < s.len() ==> idx_of(#[trigger] s[j]) != k,
    ensures
        census(s, k) == 0,
    decreases s.len(),
{
    if s.len() > 0 {
        assert(forall|j: int| 0 <= j < s.len() - 1 ==> s.drop_last()[j] == s[j]);
        lemma_census_none(s.drop_last(), k);
        assert(s.last() == s[s.len() - 1]);
    }
}

/// Census slots after one agent moves from slot `from` to slot `to`.
pub open spec fn abs_after(abs: Seq<usize>, from: int, to: int) -> Seq<usize> {
    abs.update(from, (abs[from] - 1) as usize).update(
        to,
        (abs.update(from, (abs[from] - 1) as usize)[to] + 1) as usize,
    )
}

/// Daily inflow slots after one agent moves from slot `from` to slot
/// `to`: only a move between different slots is an inflow.
pub open spec fn day_after(day: Seq<u128>, from: int, to: int) -> Seq<u128> {
    if from == to {
        day
    } else {
        day.update(to, (day[to] + 1) as u128)
    }
}

/// Per-state population totals (`abs_counter`, the current census) and
/// per-day inflows (`day_counter`, cleared at the start of each tick).
pub struct Counter {
    pub abs_counter: Vec<usize>,
    pub day_counter: Vec<u128>,
}

impl Counter {
    pub open spec fn wf(&self) -> bool {
        &&& self.abs_counter@.len() == NSTATES
        &&& self.day_counter@.len() == NSTATES
    }

    pub open spec fn abs(&self) -> Seq<usize> {
        self.abs_counter@
    }

    pub open spec fn day(&self) -> Seq<u128> {
        self.day_counter@
    }

    /// The counter mirrors the census of a state vector.
    pub open spec fn counts(&self, s: Seq<State>) -> bool {
        &&& self.wf()
        &&& forall|k: int| 0 <= k < NSTATES ==> self.abs()[k] == census(s, k)
    }

    pub fn new() -> (r: Counter)
        ensures
            r.wf(),
            forall|k: int| 0 <= k < NSTATES ==> r.abs()[k] == 0 && r.day()[k] == 0,
    {
        let mut abs_counter: Vec<usize> = Vec::new();
        let mut day_counter: Vec<u128> = Vec::new();
        let mut i: usize = 0;
        while i < NSTATES
            invariant
                abs_counter@.len() == i,
                day_counter@.len() == i,
                i <= NSTATES,
                forall|k: int| 0 <= k < i ==> abs_counter@[k] == 0 && day_counter@[k] == 0,
            decreases NSTATES - i,
        {
            abs_counter.push(0);
            day_counter.push(0);
            i += 1;
        }
        Counter { abs_counter, day_counter }
    }

    /// Add one agent to the census of its state (population build only).
    pub fn register(&mut self, s: State)
        requires
            old(self).wf(),
            old(self).abs()[idx_of(s)] < usize::MAX,
        ensures
            final(self).wf(),
            final(self).abs() == old(self).abs().update(
                idx_of(s),
                (old(self).abs()[idx_of(s)] + 1) as usize,
            ),
            final(self).day() == old(self).day(),
    {
        let k = s.index();
        let cur = self.abs_counter[k];
        self.abs_counter[k] = cur + 1;
    }

    pub fn state_count(&self, s: State) -> (r: usize)
        requires
            self.wf(),
        ensures
            r == self.abs()[idx_of(s)],
    {
        self.abs_counter[s.index()]
    }

    pub fn day_count(&self, s: State) -> (r: u128)
        requires
            self.wf(),
        ensures
            r == self.day()[idx_of(s)],
    {
        self.day_counter[s.index()]
    }

    /// Move one agent between slots: the census is conserved, and the
    /// inflow of the target slot grows exactly when the slot changes.
    pub fn transit(&mut self, from: State, to: State)
        requires
            old(self).wf(),
            old(self).abs()[idx_of(from)] >= 1,
            idx_of(from) != idx_of(to) ==> old(self).abs()[idx_of(to)] < usize::MAX,
            old(self).day()[idx_of(to)] < u128::MAX,
        ensures
            final(self).wf(),
            final(self).abs() == abs_after(old(self).abs(), idx_of(from), idx_of(to)),
            final(self).day() == day_after(old(self).day(), idx_of(from), idx_of(to)),
    {
        let kf = from.index();
        let kt = to.index();
        let cf = self.abs_counter[kf];
        self.abs_counter[kf] = cf - 1;
        let ct = self.abs_counter[kt];
        self.abs_counter[kt] = ct + 1;
        if kf != kt {
            let d = self.day_counter[kt];
            self.day_counter[kt] = d + 1;
        }
    }

    /// An owned copy of both counter arrays.
    pub fn snapshot(&self) -> (r: Counter)
        requires
            self.wf(),
        ensures
            r.wf(),
            r.abs() == self.abs(),
            r.day() == self.day(),
    {
        let mut abs_counter: Vec<usize> = Vec::new();
        let mut day_counter: Vec<u128> = Vec::new();
        let mut i: usize = 0;
        while i < NSTATES
            invariant
                i <= NSTATES,
                self.wf(),
                abs_counter@ =~= self.abs_counter@.take(i as int),
                day_counter@ =~= self.day_counter@.take(i as int),
            decreases NSTATES - i,
        {
            abs_counter.push(self.abs_counter[i]);
            day_counter.push(self.day_counter[i]);
            proof {
                assert(abs_counter@ =~= self.abs_counter@.take(i as int + 1));
                assert(day_counter@ =~= self.day_counter@.take(i as int + 1));
            }
            i += 1;
        }
        proof {
            assert(abs_counter@ =~= self.abs_counter@);
            assert(day_counter@ =~= self.day_counter@);
        }
        Counter { abs_counter, day_counter }
    }

    pub fn reset_day_counter(&mut self)
        requires
            old(self).wf(),
        ensures
            final(self).wf(),
            final(self).abs() == old(self).abs(),
            forall|k: int| 0 <= k < NSTATES ==> final(self).day()[k] == 0,
    {
        let mut i: usize = 0;
        while i < NSTATES
            invariant
                self.wf(),
                self.abs_counter@ == old(self).abs_counter@,
                i <= NSTATES,
                forall|k: int| 0 <= k < i ==> self.day_counter@[k] == 0,
            decreases NSTATES - i,
        {
            self.day_counter[i] = 0;
            i += 1;
        }
    }
}

/// When a counter mirrors a census, one agent's move keeps it mirroring
/// the updated census: the conservation step, with the overflow bounds.
pub proof fn lemma_counts_after_update(s: Seq<State>, i: int, v: State, abs: Seq<usize>)
    requires
        0 <= i < s.len(),
        s.len() <= usize::MAX,
        abs.len() == NSTATES,
        forall|k: int| 0 <= k < NSTATES ==> abs[k] == census(s, k),
    ensures
        forall|k: int|
            0 <= k < NSTATES ==> abs_after(abs, idx_of(s[i]), idx_of(v))[k] == census(
                s.update(i, v),
                k,
            ),
        abs[idx_of(s[i])] >= 1,
        idx_of(s[i]) != idx_of(v) ==> abs[idx_of(v)] < s.len(),
{
    lemma_census_member(s, i);
    let from = idx_of(s[i]);
    let to = idx_of(v);
    assert(0 <= from < 7 && 0 <= to < 7);
    assert(abs[from] >= 1);
    lemma_census_bound(s, to);
    if from != to {
        lemma_census_pair_bound(s, from, to);
        assert(abs[to] + abs[from] <= s.len());
        assert(abs[to] < usize::MAX);
    }
    assert forall|k: int| 0 <= k < NSTATES implies abs_after(abs, from, to)[k] == census(
        s.update(i, v),
        k,
    ) by {
        lemma_census_update(s, i, v, k);
        let mid = abs.update(from, (abs[from] - 1) as usize);
        assert(abs_after(abs, from, to) == mid.update(to, (mid[to] + 1) as usize));
        if k == to {
            if from == to {
                assert(mid[to] == abs[to] - 1);
            } else {
                assert(mid[to] == abs[to]);
            }
        } else if k == from {
            assert(abs_after(abs, from, to)[k] == mid[k]);
        }
    }
    if idx_of(s[i]) != idx_of(v) {
        lemma_census_pair_bound(s, idx_of(s[i]), idx_of(v));
    }
}

/// Conservation: the seven totals of a mirroring counter sum to the
/// population.
pub proof fn lemma_counts_conservation(c: &Counter, s: Seq<State>)
    requires
        c.counts(s),
    ensures
        c.abs()[0] + c.abs()[1] + c.abs()[2] + c.abs()[3] + c.abs()[4] + c.abs()[5] + c.abs()[6]
            == s.len(),
{
    lemma_census_conservation(s);
}

/// Ticks never resurrect an agent: any step relation that keeps `Dead`
/// agents dead keeps the `Dead` census from shrinking (monotone Dead).
pub proof fn lemma_dead_monotone(a: Seq<State>, b: Seq<State>)
    requires
        a.len() == b.len(),
        forall|i: int| 0 <= i < a.len() ==> tick_step(a[i], #[trigger] b[i]),
    ensures
        census(b, 6) >= census(a, 6),
{
    assert forall|i: int| 0 <= i < a.len() && idx_of(a[i]) == 6 implies idx_of(#[trigger] b[i])
        == 6 by {
        assert(a[i] == State::Dead);
    }
    lemma_census_pointwise_monotone(a, b, 6);
}

} // verus!
