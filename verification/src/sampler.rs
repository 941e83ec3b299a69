//! The diversity sampler: one column's adaptively relaxing generator.
//!
//! A sampler draws arrangements from its universe through a shuffle bag and
//! accepts a candidate only if it matches every already accepted arrangement
//! in at most `tolerance` positions. A full fruitless pass over the universe
//! escalates the tolerance by one and restarts the bag, which bounds the
//! tolerance by the arrangement length and makes the run terminate: the
//! escalation loop is the retry strategy, not an error.

use vstd::prelude::*;
use crate::arrangements::copy_row;
use crate::bag::ShuffleBag;
use crate::rng::{next_of, XorShiftRng};
use crate::similarity::{
    count_matching_cells, lemma_matching_cells_bound, lemma_matching_cells_self,
    lemma_matching_cells_sym, matching_cells,
};

verus! {

/// What one sampling step did.
#[derive(Clone, Copy, Debug, PartialEq, Eq, Structural)]
pub enum StepOutcome {
    /// The drawn candidate was diverse enough and was appended.
    Accepted,
    /// The drawn candidate was too similar to an accepted arrangement.
    Rejected,
    /// A whole pass failed at the current tolerance: the tolerance rose by
    /// one, the failure counter cleared and the bag restarted.
    Escalated,
    /// The column already holds `target` arrangements; nothing changed.
    Complete,
}

/// The arrangements a list of universe indices stands for, in list order.
pub open spec fn arrs_of(universe: Seq<Vec<i32>>, accepted: Seq<usize>) -> Seq<Seq<i32>> {
    Seq::new(accepted.len(), |j: int| universe[accepted[j] as int]@)
}

/// The largest number of cells in which `cand` matches any arrangement of
/// `arrs`; zero when `arrs` is empty.
pub open spec fn max_matching(arrs: Seq<Seq<i32>>, cand: Seq<i32>) -> nat
    decreases arrs.len(),
{
    if arrs.len() == 0 {
        0
    } else {
        let rest = max_matching(arrs.drop_last(), cand);
        let last = matching_cells(cand, arrs.last());
        if last > rest {
            last
        } else {
            rest
        }
    }
}

/// Everything one sampling run depends on, as one mathematical value: the
/// universe, the bag's order and position, the acceptance state and the
/// pseudorandom state. The whole run is a function of this value.
pub ghost struct RunState {
    pub universe: Seq<Seq<i32>>,
    pub items: Seq<usize>,
    pub remaining: int,
    pub accepted: Seq<usize>,
    pub tolerance: int,
    pub failed: int,
    pub target: int,
    pub hist: Seq<int>,
    pub rng: u64,
}

/// The mathematical value of a sampler paired with its generator.
pub open spec fn model_of(s: ColumnSampler, rng: XorShiftRng) -> RunState {
    RunState {
        universe: Seq::new(s.universe@.len(), |i: int| s.universe@[i]@),
        items: s.bag.items@,
        remaining: s.bag.remaining as int,
        accepted: s.accepted@,
        tolerance: s.tolerance as int,
        failed: s.failed_attempts as int,
        target: s.target as int,
        hist: s.tol_hist@,
        rng: rng.state,
    }
}

/// The arrangements the accepted indices of a run state stand for.
pub open spec fn model_arrs(m: RunState) -> Seq<Seq<i32>> {
    Seq::new(m.accepted.len(), |j: int| m.universe[m.accepted[j] as int])
}

/// Whether a run state has gathered everything it was asked for.
pub open spec fn model_complete(m: RunState) -> bool {
    m.accepted.len() == m.target
}

/// One step of the sampling state machine, as a pure function: a completed
/// state stays put; otherwise the bag hands out one index driven by one
/// generator step, and the candidate is accepted, rejected, or rejected with
/// a tolerance escalation, exactly as the executable step decides.
pub open spec fn step_model(m: RunState) -> RunState {
    if model_complete(m) {
        m
    } else {
        let start_rem = if m.remaining == 0 {
            m.items.len() as int
        } else {
            m.remaining
        };
        let rng2 = next_of(m.rng);
        let j = rng2 as int % start_rem;
        let idx = m.items[j];
        let items2 = m.items.update(j, m.items[start_rem - 1]).update(start_rem - 1, idx);
        let sim = max_matching(model_arrs(m), m.universe[idx as int]);
        if sim <= m.tolerance {
            RunState {
                items: items2,
                remaining: start_rem - 1,
                accepted: m.accepted.push(idx),
                failed: 0,
                hist: m.hist.push(m.tolerance),
                rng: rng2,
                ..m
            }
        } else if m.failed + 1 >= m.universe.len() {
            RunState {
                items: items2,
                remaining: m.items.len() as int,
                tolerance: m.tolerance + 1,
                failed: 0,
                rng: rng2,
                ..m
            }
        } else {
            RunState { items: items2, remaining: start_rem - 1, failed: m.failed + 1, rng: rng2, ..m }
        }
    }
}

/// `n` steps of the sampling state machine from `m`.
pub open spec fn iterate_model(m: RunState, n: nat) -> RunState
    decreases n,
{
    if n == 0 {
        m
    } else {
        step_model(iterate_model(m, (n - 1) as nat))
    }
}

/// The diversity invariant over an acceptance history: any earlier
/// arrangement matches a later one in at most as many positions as the
/// tolerance recorded when the later one was accepted.
pub open spec fn pairwise_diverse(arrs: Seq<Seq<i32>>, hist: Seq<int>) -> bool {
    forall|i: int, j: int|
        0 <= i < j < arrs.len() ==> matching_cells(#[trigger] arrs[i], #[trigger] arrs[j])
            <= hist[j]
}

proof fn lemma_pairwise_diverse_push(arrs: Seq<Seq<i32>>, hist: Seq<int>, cand: Seq<i32>, tol: int)
    requires
        arrs.len() == hist.len(),
        pairwise_diverse(arrs, hist),
        forall|i: int| 0 <= i < arrs.len() ==> matching_cells(cand, #[trigger] arrs[i]) <= tol,
    ensures
        pairwise_diverse(arrs.push(cand), hist.push(tol)),
{
    let arrs2 = arrs.push(cand);
    let hist2 = hist.push(tol);
    assert forall|i: int, j: int|
        0 <= i < j < arrs2.len() implies matching_cells(arrs2[i], arrs2[j]) <= hist2[j] by {
        if j < arrs.len() {
            assert(arrs2[i] == arrs[i] && arrs2[j] == arrs[j]);
        } else {
            assert(arrs2[i] == arrs[i] && arrs2[j] == cand);
            lemma_matching_cells_sym(cand, arrs[i]);
        }
    }
}

/// Per-column sampling state: the enumerated universe, a shuffle bag over its
/// indices, the accepted arrangements (as universe indices), the similarity
/// tolerance now in force and the count of rejections since the last
/// acceptance or escalation. The ghost history records the tolerance under
/// which each arrangement was accepted.
pub struct ColumnSampler {
    pub universe: Vec<Vec<i32>>,
    pub bag: ShuffleBag,
    pub accepted: Vec<usize>,
    pub tolerance: usize,
    pub failed_attempts: usize,
    pub target: usize,
    pub tol_hist: Ghost<Seq<int>>,
}

impl ColumnSampler {
    /// The common length of every arrangement in the universe.
    pub open spec fn arr_len(self) -> nat {
        self.universe@[0]@.len()
    }

    /// The arrangement accepted at position `j`.
    pub open spec fn accepted_arr(self, j: int) -> Seq<i32> {
        self.universe@[self.accepted@[j] as int]@
    }

    /// The accepted arrangements, in acceptance order.
    pub open spec fn accepted_arrs(self) -> Seq<Seq<i32>> {
        arrs_of(self.universe@, self.accepted@)
    }

    /// The sampler's invariant, established by `new` and preserved by every
    /// step: the universe is a nonempty list of equal-length arrangements,
    /// the bag cycles over exactly its indices, every accepted entry points
    /// into the universe, the tolerance never outgrows the arrangement
    /// length, the failure counter never completes a pass without acting,
    /// the ghost history mirrors the accepted list, and the whole acceptance
    /// history is pairwise diverse.
    pub open spec fn wf(self) -> bool {
        &&& self.universe@.len() >= 1
        &&& self.arr_len() >= 1
        &&& forall|i: int|
            0 <= i < self.universe@.len() ==> (#[trigger] self.universe@[i]@).len()
                == self.arr_len()
        &&& self.bag.wf()
        &&& self.bag.size() == self.universe@.len()
        &&& forall|j: int|
            0 <= j < self.accepted@.len() ==> (#[trigger] self.accepted@[j]) < self.universe@.len()
        &&& self.accepted@.len() <= self.target
        &&& self.tolerance <= self.arr_len()
        &&& self.failed_attempts < self.universe@.len()
        &&& self.tol_hist@.len() == self.accepted@.len()
        &&& forall|j: int|
            0 <= j < self.tol_hist@.len() ==> 0 <= #[trigger] self.tol_hist@[j] <= self.tolerance
        &&& pairwise_diverse(arrs_of(self.universe@, self.accepted@), self.tol_hist@)
    }

    /// A fresh sampler over `universe` aiming for `count` arrangements.
    pub fn new(universe: Vec<Vec<i32>>, count: usize) -> (s: ColumnSampler)
        requires
            universe@.len() >= 1,
            universe@[0]@.len() >= 1,
            forall|i: int|
                0 <= i < universe@.len() ==> (#[trigger] universe@[i]@).len()
                    == universe@[0]@.len(),
        ensures
            s.wf(),
            s.universe == universe,
            s.target == count,
            s.accepted@.len() == 0,
            s.tolerance == 0,
            s.failed_attempts == 0,
            s.tol_hist@ == Seq::<int>::empty(),
            s.bag.items@.len() == universe@.len(),
            s.bag.remaining == universe@.len(),
            forall|i: int| 0 <= i < universe@.len() ==> s.bag.items@[i] == i,
    {
        let n = universe.len();
        ColumnSampler {
            bag: ShuffleBag::new(n),
            universe,
            accepted: Vec::new(),
            tolerance: 0,
            failed_attempts: 0,
            target: count,
            tol_hist: Ghost(Seq::empty()),
        }
    }

    /// One draw-and-decide step of the per-column state machine.
    pub fn step(&mut self, rng: &mut XorShiftRng) -> (outcome: StepOutcome)
        requires
            old(self).wf(),
        ensures
            final(self).wf(),
            final(self).universe == old(self).universe,
            final(self).target == old(self).target,
            (outcome == StepOutcome::Complete) <==> (old(self).accepted@.len()
                == old(self).target),
            outcome == StepOutcome::Complete ==> *final(self) == *old(self) && *final(rng) == *old(
                rng,
            ),
            outcome == StepOutcome::Accepted ==> {
                &&& final(self).accepted@.len() == old(self).accepted@.len() + 1
                &&& final(self).accepted@.drop_last() == old(self).accepted@
                &&& final(self).tolerance == old(self).tolerance
                &&& final(self).failed_attempts == 0
                &&& final(self).tol_hist@ == old(self).tol_hist@.push(old(self).tolerance as int)
            },
            outcome == StepOutcome::Rejected ==> {
                &&& final(self).accepted@ == old(self).accepted@
                &&& final(self).tolerance == old(self).tolerance
                &&& final(self).failed_attempts == old(self).failed_attempts + 1
                &&& final(self).tol_hist@ == old(self).tol_hist@
            },
            outcome == StepOutcome::Escalated ==> {
                &&& final(self).accepted@ == old(self).accepted@
                &&& final(self).tolerance == old(self).tolerance + 1
                &&& final(self).failed_attempts == 0
                &&& final(self).tol_hist@ == old(self).tol_hist@
            },
            model_of(*final(self), *final(rng)) == step_model(model_of(*old(self), *old(rng))),
    {
        let ghost m0 = model_of(*old(self), *old(rng));
        if self.accepted.len() == self.target {
            proof {
                assert(model_complete(m0));
            }
            return StepOutcome::Complete;
        }
        let idx = self.bag.get_next(rng);
        let ghost cand: Seq<i32> = self.universe@[idx as int]@;
        let ghost arrs0 = arrs_of(self.universe@, self.accepted@);
        proof {
            assert(model_arrs(m0) =~= arrs0);
            assert(m0.universe[idx as int] == cand);
        }
        let mut max_sim: usize = 0;
        let mut t: usize = 0;
        while t < self.accepted.len()
            invariant
                self.wf(),
                idx < self.universe@.len(),
                cand == self.universe@[idx as int]@,
                arrs0 == arrs_of(self.universe@, self.accepted@),
                t <= self.accepted@.len(),
                max_sim <= self.arr_len(),
                max_sim == max_matching(arrs0.take(t as int), cand),
                forall|j: int|
                    0 <= j < t ==> matching_cells(cand, self.accepted_arr(j)) <= max_sim,
            decreases self.accepted@.len() - t,
        {
            let prior = self.accepted[t];
            let s = count_matching_cells(
                self.universe[idx].as_slice(),
                self.universe[prior].as_slice(),
            );
            proof {
                lemma_matching_cells_bound(cand, self.accepted_arr(t as int));
                let taken = arrs0.take(t + 1);
                assert(taken.drop_last() =~= arrs0.take(t as int));
                assert(taken.last() == self.accepted_arr(t as int));
            }
            if s > max_sim {
                max_sim = s;
            }
            t = t + 1;
        }
        proof {
            assert(arrs0.take(self.accepted@.len() as int) =~= arrs0);
            assert(max_sim == max_matching(model_arrs(m0), m0.universe[idx as int]));
        }
        if max_sim <= self.tolerance {
            let ghost pre = *self;
            self.accepted.push(idx);
            proof {
                self.tol_hist = Ghost(self.tol_hist@.push(self.tolerance as int));
            }
            self.failed_attempts = 0;
            proof {
                assert forall|i: int| 0 <= i < arrs0.len() implies matching_cells(
                    cand,
                    #[trigger] arrs0[i],
                ) <= pre.tolerance as int by {
                    assert(arrs0[i] == pre.accepted_arr(i));
                    assert(matching_cells(cand, pre.accepted_arr(i)) <= max_sim);
                }
                lemma_pairwise_diverse_push(arrs0, pre.tol_hist@, cand, pre.tolerance as int);
                assert(arrs_of(self.universe@, self.accepted@) =~= arrs0.push(cand));
                assert(self.accepted@.drop_last() =~= pre.accepted@);
                let mf = model_of(*self, *rng);
                assert(mf.universe =~= step_model(m0).universe);
                assert(mf == step_model(m0));
            }
            StepOutcome::Accepted
        } else {
            let n = self.universe.len();
            self.failed_attempts = self.failed_attempts + 1;
            if self.failed_attempts >= n {
                self.tolerance = self.tolerance + 1;
                self.failed_attempts = 0;
                self.bag.reset();
                proof {
                    let mf = model_of(*self, *rng);
                    assert(mf.universe =~= step_model(m0).universe);
                    assert(mf == step_model(m0));
                }
                StepOutcome::Escalated
            } else {
                proof {
                    let mf = model_of(*self, *rng);
                    assert(mf.universe =~= step_model(m0).universe);
                    assert(mf == step_model(m0));
                }
                StepOutcome::Rejected
            }
        }
    }

    /// Runs the state machine to completion: afterwards the column holds
    /// exactly `target` accepted arrangements. A request larger than the
    /// universe provably forces at least one tolerance escalation on the way.
    /// The outcome is some finite iteration of the pure step function, so by
    /// `lemma_iterate_deterministic` a run is a function of its starting
    /// state and seed alone.
    pub fn run(&mut self, rng: &mut XorShiftRng)
        requires
            old(self).wf(),
        ensures
            final(self).wf(),
            final(self).universe == old(self).universe,
            final(self).target == old(self).target,
            final(self).accepted@.len() == old(self).target,
            old(self).target > old(self).universe@.len() ==> final(self).tolerance >= 1,
            exists|n: nat|
                model_of(*final(self), *final(rng)) == iterate_model(
                    model_of(*old(self), *old(rng)),
                    n,
                ),
            model_complete(model_of(*final(self), *final(rng))),
    {
        let ghost m0 = model_of(*old(self), *old(rng));
        let mut ghost_steps: Ghost<nat> = Ghost(0nat);
        proof {
            assert(model_of(*self, *rng) == iterate_model(m0, 0));
        }
        while self.accepted.len() < self.target
            invariant
                self.wf(),
                self.universe == old(self).universe,
                self.target == old(self).target,
                model_of(*self, *rng) == iterate_model(m0, ghost_steps@),
            decreases
                    self.target - self.accepted@.len(),
                    self.arr_len() - self.tolerance,
                    self.universe@.len() - self.failed_attempts,
        {
            let _outcome = self.step(rng);
            ghost_steps = Ghost(ghost_steps@ + 1);
        }
        proof {
            if self.target > self.universe@.len() && self.tolerance == 0 {
                lemma_zero_tolerance_bounds_accepted(*self);
            }
        }
    }

    /// The accepted arrangements as fresh vectors, in acceptance order.
    pub fn accepted_arrangements(&self) -> (r: Vec<Vec<i32>>)
        requires
            self.wf(),
        ensures
            r.deep_view() == self.accepted_arrs(),
            r@.len() == self.accepted@.len(),
    {
        let mut r: Vec<Vec<i32>> = Vec::new();
        let mut t: usize = 0;
        while t < self.accepted.len()
            invariant
                self.wf(),
                t <= self.accepted@.len(),
                r.deep_view() == self.accepted_arrs().take(t as int),
            decreases self.accepted@.len() - t,
        {
            let ghost r_pre: Seq<Seq<i32>> = r.deep_view();
            let prior = self.accepted[t];
            let row = copy_row(&self.universe[prior]);
            proof {
                assert(row@ == self.accepted_arr(t as int));
            }
            r.push(row);
            proof {
                assert(r.deep_view() =~~= r_pre.push(row@));
                assert(self.accepted_arrs().take(t + 1) =~= self.accepted_arrs().take(
                    t as int,
                ).push(self.accepted_arr(t as int)));
            }
            t = t + 1;
        }
        proof {
            assert(self.accepted_arrs().take(self.accepted@.len() as int) =~= self.accepted_arrs());
        }
        r
    }
}

/// While the tolerance in force has stayed below the arrangement length, no
/// arrangement can ever have been accepted twice: two equal arrangements
/// match in every position, which exceeds any smaller tolerance.
pub proof fn lemma_no_duplicates_below_cap(s: ColumnSampler)
    requires
        s.wf(),
        s.tolerance < s.arr_len(),
    ensures
        s.accepted_arrs().no_duplicates(),
{
    let arrs = s.accepted_arrs();
    assert forall|i: int, j: int|
        0 <= i < arrs.len() && 0 <= j < arrs.len() && i != j implies arrs[i] != arrs[j] by {
        let (lo, hi) = if i < j {
            (i, j)
        } else {
            (j, i)
        };
        assert(matching_cells(arrs[lo], arrs[hi]) <= s.tol_hist@[hi]);
        if arrs[lo] == arrs[hi] {
            assert(arrs[hi] == s.accepted_arr(hi));
            lemma_matching_cells_self(s.accepted_arr(hi));
        }
    }
}

/// A sampler whose tolerance is still zero cannot hold more accepted
/// arrangements than its universe has entries: they are pairwise distinct
/// members of the universe.
pub proof fn lemma_zero_tolerance_bounds_accepted(s: ColumnSampler)
    requires
        s.wf(),
        s.tolerance == 0,
    ensures
        s.accepted@.len() <= s.universe@.len(),
{
    broadcast use vstd::seq_lib::seq_to_set_is_finite;

    let arrs = s.accepted_arrs();
    let univ = Seq::new(s.universe@.len(), |i: int| s.universe@[i]@);
    lemma_no_duplicates_below_cap(s);
    arrs.unique_seq_to_set();
    assert(arrs.to_set().subset_of(univ.to_set())) by {
        assert forall|x: Seq<i32>| arrs.to_set().contains(x) implies univ.to_set().contains(
            x,
        ) by {
            let j = choose|j: int| 0 <= j < arrs.len() && arrs[j] == x;
            assert(univ[s.accepted@[j] as int] == x);
        }
    }
    vstd::set_lib::lemma_len_subset(arrs.to_set(), univ.to_set());
    univ.lemma_cardinality_of_set();
}

proof fn lemma_iterate_stable(m: RunState, n: nat, extra: nat)
    requires
        model_complete(iterate_model(m, n)),
    ensures
        iterate_model(m, (n + extra) as nat) == iterate_model(m, n),
    decreases extra,
{
    if extra > 0 {
        lemma_iterate_stable(m, n, (extra - 1) as nat);
        assert(iterate_model(m, (n + extra) as nat) == step_model(
            iterate_model(m, (n + extra - 1) as nat),
        ));
    }
}

/// Sampling is deterministic: from one starting state and seed, any two
/// iteration counts that both reach completion reach the very same state,
/// with the very same accepted-arrangement sequence. Together with `run`'s
/// contract, identical seeds and inputs yield identical accepted sequences.
pub proof fn lemma_iterate_deterministic(m: RunState, n1: nat, n2: nat)
    requires
        model_complete(iterate_model(m, n1)),
        model_complete(iterate_model(m, n2)),
    ensures
        iterate_model(m, n1) == iterate_model(m, n2),
{
    if n1 <= n2 {
        lemma_iterate_stable(m, n1, (n2 - n1) as nat);
    } else {
        lemma_iterate_stable(m, n2, (n1 - n2) as nat);
    }
}

/// The diversity invariant in its symmetric form: any two accepted
/// arrangements match in at most the larger of the tolerances in force when
/// each was accepted.
pub proof fn lemma_diversity_invariant(s: ColumnSampler, i: int, j: int)
    requires
        s.wf(),
        0 <= i < s.accepted@.len(),
        0 <= j < s.accepted@.len(),
        i != j,
    ensures
        matching_cells(s.accepted_arr(i), s.accepted_arr(j)) <= if s.tol_hist@[i]
            >= s.tol_hist@[j] {
            s.tol_hist@[i]
        } else {
            s.tol_hist@[j]
        },
{
    let arrs = s.accepted_arrs();
    assert(arrs[i] == s.accepted_arr(i));
    assert(arrs[j] == s.accepted_arr(j));
    lemma_matching_cells_sym(s.accepted_arr(i), s.accepted_arr(j));
    if i < j {
        assert(matching_cells(arrs[i], arrs[j]) <= s.tol_hist@[j]);
    } else {
        assert(matching_cells(arrs[j], arrs[i]) <= s.tol_hist@[i]);
    }
}

} // verus!
