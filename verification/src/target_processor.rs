//! The multi-target loop: targets are discovered one at a time, each from
//! the rays that no earlier target has consumed.
//!
//! `find_targets` runs a whole search with the caller's kernels;
//! `TargetSearch` is the state behind it, for callers that run the phases
//! themselves. The consensus fit, the refinement and the target type of the
//! other modules are re-exported here, so that all that locating a target
//! takes is found in one place.

pub use crate::consensus::ransac_fit_lines;
pub use crate::ident::target_id;
pub use crate::refiner::levenberg_marquardt_optimize;
pub use crate::target::{LocatedTarget, LocatedTargetView};

use crate::consensus::{best_of, fitted, kernels_accept, Consensus, HypothesisView};
use crate::ident::target_id_spec;
use crate::indices::{
    all_below, lemma_increasing_no_duplicates, lemma_selected_increasing, select, selected,
    strictly_increasing,
};
use crate::pool::{lemma_free_rays, unused_indices, RayPool};
use crate::sampler::distinct_triple;
use crate::target::{
    covered, disjoint_lines, lemma_covered, lemma_covered_count, lemma_target_count_bounded,
    total_lines, valid_targets, views,
};
use rand::rngs::StdRng;
use vstd::prelude::*;

verus! {

/// The states of the search for one more target.
#[derive(Debug, Clone, Copy, PartialEq, Eq, Structural)]
pub enum Phase {
    /// The free rays are to be listed.
    SelectRemaining,
    /// A consensus fit over the free rays is owed.
    Propose,
    /// The refined position of the proposed target is owed.
    Refine,
    /// The residual of the refined position is owed.
    Commit,
    /// No further target can be found.
    Done,
}

/// Why a search found no further target.
#[derive(Debug, Clone, Copy, PartialEq, Eq, Structural)]
pub enum StopReason {
    /// Fewer free rays are left than a target needs.
    InsufficientRays,
    /// No hypothesis over the free rays gathered enough inliers.
    NoConsensus,
}

/// The state of one search over a fixed array of rays.
///
/// The search alternates between this state and its caller: the state says
/// in which phase it is, the caller does the numerical work of that phase and
/// reports the result, and the state decides what follows.
pub struct TargetSearch<P, D> {
    pool: RayPool,
    min_lines: usize,
    phase: Phase,
    stopped: Option<StopReason>,
    back_map: Vec<usize>,
    lines: Vec<usize>,
    seed: Option<P>,
    position: Option<P>,
    targets: Vec<LocatedTarget<P, D>>,
}

impl<P, D> TargetSearch<P, D> {
    /// Number of rays in the measurement array.
    pub closed spec fn num_rays(&self) -> nat {
        self.pool.total()
    }

    /// Fewest rays that a target must be supported by.
    pub closed spec fn min_lines(&self) -> nat {
        self.min_lines as nat
    }

    /// The phase that the search is in.
    pub closed spec fn phase(&self) -> Phase {
        self.phase
    }

    /// Why the search is over, once it is.
    pub closed spec fn stopped_by(&self) -> Option<StopReason> {
        self.stopped
    }

    /// The rays consumed by the targets located so far.
    pub closed spec fn used(&self) -> Set<usize> {
        self.pool.used()
    }

    /// In phase `Propose`: the free rays, by index in the measurement array
    /// in ascending order. A consensus fit addresses ray `remaining()[k]` as
    /// `k`.
    pub closed spec fn remaining(&self) -> Seq<usize> {
        self.back_map@
    }

    /// In phases `Refine` and `Commit`: the indices in the measurement array
    /// of the rays of the target that is being fitted.
    pub closed spec fn target_lines(&self) -> Seq<usize> {
        self.lines@
    }

    /// The list that holds `target_lines()`.
    pub closed spec fn target_list(&self) -> Vec<usize> {
        self.lines
    }

    /// In phase `Refine`: the seed position of the target that is being
    /// fitted.
    pub closed spec fn seed(&self) -> Option<P> {
        self.seed
    }

    /// In phase `Commit`: the refined position of the target that is being
    /// fitted.
    pub closed spec fn refined_position(&self) -> Option<P> {
        self.position
    }

    /// The targets located so far, in the order of discovery.
    pub closed spec fn targets(&self) -> Seq<LocatedTargetView<P, D>> {
        views(self.targets@)
    }

    /// The invariant of the search.
    pub closed spec fn wf(&self) -> bool {
        &&& self.pool.wf()
        &&& self.min_lines >= 1
        &&& valid_targets(self.targets(), self.num_rays(), self.min_lines())
        &&& self.pool.used() == covered(self.targets())
        &&& self.phase == Phase::Propose ==> {
            &&& self.back_map@ == unused_indices(self.pool.used(), self.pool.total())
            &&& self.back_map@.len() >= self.min_lines
        }
        &&& self.phase == Phase::Refine || self.phase == Phase::Commit ==> {
            &&& strictly_increasing(self.lines@)
            &&& all_below(self.lines@, self.pool.total())
            &&& self.lines@.len() >= self.min_lines
            &&& forall|j: int|
                0 <= j < self.lines@.len() ==> !self.pool.used().contains(self.lines@[j])
        }
        &&& self.phase == Phase::Refine ==> self.seed is Some
        &&& self.phase == Phase::Commit ==> self.position is Some
        &&& self.phase == Phase::Done <==> self.stopped is Some
    }

    /// In every state of a search the targets located so far are numbered
    /// from 1, each is supported by at least `min_lines` rays, no ray supports
    /// two of them, the consumed rays are exactly the supporting rays, and
    /// there are at most `num_rays / min_lines` targets.
    pub proof fn lemma_invariants(&self)
        requires
            self.wf(),
        ensures
            self.min_lines() >= 1,
            self.num_rays() <= usize::MAX,
            valid_targets(self.targets(), self.num_rays(), self.min_lines()),
            self.used() == covered(self.targets()),
            self.used().len() == total_lines(self.targets()),
            self.targets().len() * self.min_lines() <= self.used().len(),
            self.used().len() <= self.num_rays(),
            self.targets().len() <= self.num_rays() / self.min_lines(),
            self.phase() == Phase::Done <==> self.stopped_by() is Some,
    {
        self.pool.lemma_used_bounded();
        lemma_covered_count(self.targets(), self.num_rays(), self.min_lines());
        lemma_target_count_bounded(self.targets(), self.num_rays(), self.min_lines());
    }

    /// Starts a search over `num_rays` rays for targets supported by at
    /// least `min_lines` rays each.
    pub fn new(num_rays: usize, min_lines: usize) -> (search: Self)
        requires
            min_lines >= 1,
        ensures
            search.wf(),
            search.num_rays() == num_rays,
            search.min_lines() == min_lines,
            search.phase() == Phase::SelectRemaining,
            search.stopped_by() is None,
            search.used() == Set::<usize>::empty(),
            search.targets() == Seq::<LocatedTargetView<P, D>>::empty(),
    {
        let search = TargetSearch {
            pool: RayPool::new(num_rays),
            min_lines,
            phase: Phase::SelectRemaining,
            stopped: None,
            back_map: Vec::new(),
            lines: Vec::new(),
            seed: None,
            position: None,
            targets: Vec::new(),
        };
        assert(search.targets() =~= Seq::<LocatedTargetView<P, D>>::empty());
        search
    }

    /// The phase that the search is in.
    pub fn current_phase(&self) -> (phase: Phase)
        ensures
            phase == self.phase(),
    {
        self.phase
    }

    /// Why the search is over, once it is.
    pub fn stop_reason(&self) -> (reason: Option<StopReason>)
        ensures
            reason == self.stopped_by(),
    {
        self.stopped
    }

    /// Number of rays in the measurement array.
    pub fn ray_count(&self) -> (n: usize)
        ensures
            n == self.num_rays(),
    {
        self.pool.total_rays()
    }

    /// Fewest rays that a target must be supported by.
    pub fn min_lines_per_target(&self) -> (n: usize)
        ensures
            n == self.min_lines(),
    {
        self.min_lines
    }

    /// Number of targets located so far.
    pub fn target_count(&self) -> (n: usize)
        ensures
            n == self.targets().len(),
    {
        self.targets.len()
    }

    /// The free rays as listed by `select_remaining`.
    pub fn remaining_rays(&self) -> (back_map: &Vec<usize>)
        ensures
            back_map@ == self.remaining(),
    {
        &self.back_map
    }

    /// The rays of the target that is being fitted.
    pub fn proposed_lines(&self) -> (lines: &Vec<usize>)
        ensures
            lines@ == self.target_lines(),
            *lines == self.target_list(),
    {
        &self.lines
    }

    /// The seed position of the target that is being fitted.
    pub fn proposed_seed(&self) -> (seed: &P)
        requires
            self.wf(),
            self.phase() == Phase::Refine,
        ensures
            self.seed() == Some(*seed),
    {
        self.seed.as_ref().unwrap()
    }

    /// The refined position of the target that is being fitted.
    pub fn refined_at(&self) -> (position: &P)
        requires
            self.wf(),
            self.phase() == Phase::Commit,
        ensures
            self.refined_position() == Some(*position),
    {
        self.position.as_ref().unwrap()
    }

    /// Lists the free rays. With fewer than `min_lines` of them the search
    /// is over; otherwise a consensus fit over them is owed.
    pub fn select_remaining(&mut self) -> (sufficient: bool)
        requires
            old(self).wf(),
            old(self).phase() == Phase::SelectRemaining,
        ensures
            final(self).wf(),
            final(self).num_rays() == old(self).num_rays(),
            final(self).min_lines() == old(self).min_lines(),
            final(self).used() == old(self).used(),
            final(self).targets() == old(self).targets(),
            final(self).remaining() == unused_indices(old(self).used(), old(self).num_rays()),
            final(self).remaining().len() + old(self).used().len() == old(self).num_rays(),
            strictly_increasing(final(self).remaining()),
            all_below(final(self).remaining(), old(self).num_rays()),
            forall|i: usize|
                final(self).remaining().contains(i) <==> i < old(self).num_rays() && !old(
                    self,
                ).used().contains(i),
            sufficient <==> final(self).remaining().len() >= old(self).min_lines(),
            final(self).phase() == if sufficient {
                Phase::Propose
            } else {
                Phase::Done
            },
            final(self).stopped_by() == if sufficient {
                None
            } else {
                Some(StopReason::InsufficientRays)
            },
    {
        proof {
            self.pool.lemma_used_bounded();
        }
        self.back_map = self.pool.remaining();
        let sufficient = self.back_map.len() >= self.min_lines;
        if sufficient {
            self.phase = Phase::Propose;
        } else {
            self.phase = Phase::Done;
            self.stopped = Some(StopReason::InsufficientRays);
        }
        sufficient
    }

    /// Starts a consensus fit of `iterations` rounds over the free rays.
    pub fn begin_consensus(&self, iterations: usize) -> (fit: Consensus<P>)
        ensures
            fit.wf(),
            fit.pool_len() == self.remaining().len(),
            fit.min_lines() == self.min_lines(),
            fit.rounds_left() == iterations,
            !fit.awaiting(),
            fit.considered().len() == 0,
    {
        Consensus::new(self.back_map.len(), iterations, self.min_lines)
    }

    /// Takes the outcome of the consensus fit over the free rays.
    ///
    /// Without a hypothesis the search is over. With one, its inliers are
    /// translated to indices in the measurement array, its seed position is
    /// kept, and the refined position is owed. The result says whether there
    /// was one.
    pub fn propose(&mut self, fit: Consensus<P>) -> (found: bool)
        requires
            old(self).wf(),
            old(self).phase() == Phase::Propose,
            fit.wf(),
            fit.pool_len() == old(self).remaining().len(),
            fit.min_lines() == old(self).min_lines(),
        ensures
            final(self).wf(),
            final(self).num_rays() == old(self).num_rays(),
            final(self).min_lines() == old(self).min_lines(),
            final(self).used() == old(self).used(),
            final(self).targets() == old(self).targets(),
            final(self).remaining() == old(self).remaining(),
            match best_of(fit.considered(), fit.min_lines()) {
                Some(h) => {
                    &&& found
                    &&& final(self).seed() == Some(h.position)
                    &&& final(self).phase() == Phase::Refine
                    &&& final(self).stopped_by() is None
                    &&& final(self).target_lines() == selected(old(self).remaining(), h.inliers)
                    &&& final(self).target_lines().len() >= old(self).min_lines()
                    &&& strictly_increasing(final(self).target_lines())
                    &&& all_below(final(self).target_lines(), old(self).num_rays())
                    &&& forall|j: int|
                        0 <= j < final(self).target_lines().len() ==> !old(self).used().contains(
                            #[trigger] final(self).target_lines()[j],
                        )
                },
                None => {
                    &&& !found
                    &&& final(self).phase() == Phase::Done
                    &&& final(self).stopped_by() == Some(StopReason::NoConsensus)
                    &&& final(self).target_lines() == old(self).target_lines()
                },
            },
    {
        match fit.into_best() {
            Some(best) => {
                let lines = select(&self.back_map, &best.inliers);
                proof {
                    self.pool.lemma_used_bounded();
                    lemma_free_rays(self.pool.used(), self.pool.total());
                    lemma_selected_increasing(self.back_map@, best.inliers@);
                    assert forall|j: int| 0 <= j < lines@.len() implies lines@[j]
                        < self.pool.total() && !self.pool.used().contains(lines@[j]) by {
                        assert(self.back_map@.contains(lines@[j]));
                    }
                }
                self.lines = lines;
                self.seed = Some(best.position);
                self.phase = Phase::Refine;
                true
            },
            None => {
                self.phase = Phase::Done;
                self.stopped = Some(StopReason::NoConsensus);
                false
            },
        }
    }

    /// Takes the refined position of the target that is being fitted. Its
    /// residual is owed next.
    pub fn refined(&mut self, position: P)
        requires
            old(self).wf(),
            old(self).phase() == Phase::Refine,
        ensures
            final(self).wf(),
            final(self).num_rays() == old(self).num_rays(),
            final(self).min_lines() == old(self).min_lines(),
            final(self).used() == old(self).used(),
            final(self).targets() == old(self).targets(),
            final(self).remaining() == old(self).remaining(),
            final(self).target_lines() == old(self).target_lines(),
            final(self).target_list() == old(self).target_list(),
            final(self).refined_position() == Some(position),
            final(self).phase() == Phase::Commit,
            final(self).stopped_by() is None,
    {
        self.seed = None;
        self.position = Some(position);
        self.phase = Phase::Commit;
    }

    /// Takes the residual of the refined position and records the target:
    /// it gets the next number, its rays are consumed, and the search goes on
    /// with the rays that are left.
    pub fn commit(&mut self, avg_error: D)
        requires
            old(self).wf(),
            old(self).phase() == Phase::Commit,
        ensures
            final(self).wf(),
            final(self).num_rays() == old(self).num_rays(),
            final(self).min_lines() == old(self).min_lines(),
            final(self).phase() == Phase::SelectRemaining,
            final(self).stopped_by() is None,
            final(self).used() == old(self).used().union(old(self).target_lines().to_set()),
            final(self).used().len() == old(self).used().len() + old(self).target_lines().len(),
            final(self).used().len() >= old(self).used().len() + old(self).min_lines(),
            final(self).used().len() <= old(self).num_rays(),
            old(self).refined_position() matches Some(position) && final(self).targets() == old(
                self,
            ).targets().push(
                LocatedTargetView {
                    id: target_id_spec(old(self).targets().len() + 1),
                    position,
                    num_lines: old(self).target_lines().len(),
                    avg_error_dist_m: avg_error,
                    lines: old(self).target_lines(),
                },
            ),
    {
        proof {
            self.pool.lemma_used_bounded();
            lemma_covered_count(self.targets(), self.num_rays(), self.min_lines());
            lemma_increasing_no_duplicates(self.lines@);
            self.lines@.unique_seq_to_set();
            assert(self.pool.used().disjoint(self.lines@.to_set())) by {
                let used = self.pool.used();
                assert forall|x: usize| self.lines@.to_set().contains(x) implies !used.contains(
                    x,
                ) by {
                    let j = choose|j: int| 0 <= j < self.lines@.len() && self.lines@[j] == x;
                    assert(!used.contains(self.lines@[j]));
                }
            }
            vstd::set_lib::lemma_set_disjoint_lens(self.pool.used(), self.lines@.to_set());
        }
        let ghost before = self.targets();
        let mut lines: Vec<usize> = Vec::new();
        core::mem::swap(&mut self.lines, &mut lines);
        self.pool.mark_used(&lines);
        proof {
            self.pool.lemma_used_bounded();
            let count = before.len();
            let least = self.min_lines as nat;
            assert(count <= count * least) by (nonlinear_arith)
                requires
                    least >= 1,
            ;
            assert(self.targets@.len() == count);
        }
        let number: usize = self.targets.len() + 1;
        let position = self.position.take().unwrap();
        let target = LocatedTarget {
            id: target_id(number),
            position,
            num_lines: lines.len(),
            avg_error_dist_m: avg_error,
            lines,
        };
        let ghost added = target@;
        self.targets.push(target);
        self.phase = Phase::SelectRemaining;
        proof {
            let after = self.targets();
            assert(after =~= before.push(added));
            assert(after.drop_last() =~= before);
            assert(after.last() == added);
            assert forall|a: int, b: int| 0 <= a < b < after.len() implies disjoint_lines(
                (#[trigger] after[a]).lines,
                (#[trigger] after[b]).lines,
            ) by {
                if b == before.len() {
                    assert forall|i: int, j: int|
                        0 <= i < after[a].lines.len() && 0 <= j < after[b].lines.len()
                        implies after[a].lines[i] != after[b].lines[j] by {
                        lemma_covered(before, before[a].lines[i]);
                    }
                } else {
                    assert(after[a] == before[a] && after[b] == before[b]);
                }
            }
            assert forall|k: int| 0 <= k < after.len() implies {
                &&& (#[trigger] after[k]).id == target_id_spec((k + 1) as nat)
                &&& after[k].num_lines == after[k].lines.len()
                &&& after[k].num_lines >= self.min_lines()
                &&& strictly_increasing(after[k].lines)
                &&& all_below(after[k].lines, self.num_rays())
            } by {
                if k < before.len() {
                    assert(after[k] == before[k]);
                }
            }
        }
    }

    /// Ends the search and hands out the targets in the order of discovery.
    ///
    /// Each target is supported by at least `min_lines` rays, no ray supports
    /// two targets, and there are at most `num_rays / min_lines` targets; in
    /// particular none when the array holds fewer than `min_lines` rays.
    pub fn into_targets(self) -> (found: Vec<LocatedTarget<P, D>>)
        requires
            self.wf(),
        ensures
            views(found@) == self.targets(),
            valid_targets(views(found@), self.num_rays(), self.min_lines()),
            forall|k: int|
                0 <= k < found.len() ==> found[k].num_lines >= self.min_lines()
                    && found[k].num_lines == found[k].lines.len(),
            forall|a: int, b: int|
                0 <= a < b < found.len() ==> disjoint_lines(
                    (#[trigger] found[a]).lines@,
                    (#[trigger] found[b]).lines@,
                ),
            found.len() <= self.num_rays() / self.min_lines(),
            self.num_rays() < self.min_lines() ==> found.len() == 0,
    {
        proof {
            self.pool.lemma_used_bounded();
            lemma_target_count_bounded(self.targets(), self.num_rays(), self.min_lines());
            let ts = self.targets();
            assert forall|k: int| 0 <= k < self.targets@.len() implies self.targets@[k].num_lines
                >= self.min_lines() && self.targets@[k].num_lines
                == self.targets@[k].lines.len() by {
                assert(ts[k] == self.targets@[k]@);
            }
            assert forall|a: int, b: int| 0 <= a < b < self.targets@.len() implies disjoint_lines(
                (#[trigger] self.targets@[a]).lines@,
                (#[trigger] self.targets@[b]).lines@,
            ) by {
                assert(ts[a] == self.targets@[a]@);
                assert(ts[b] == self.targets@[b]@);
            }
        }
        self.targets
    }
}

/// What a search is run with: the size of the measurement array, the number
/// of rounds of each consensus fit, the minimum of rays per target, and the
/// four kernels.
pub ghost struct SearchPlan<S, C, R, E> {
    pub num_rays: nat,
    pub iterations: nat,
    pub min_lines: nat,
    pub seed_of: S,
    pub is_inlier: C,
    pub refine: R,
    pub residual: E,
}

/// The rays that are free before the `k`-th target of `ts` is located, by
/// index in the measurement array in ascending order.
pub open spec fn free_before<P, D>(ts: Seq<LocatedTargetView<P, D>>, k: int, num_rays: nat) -> Seq<
    usize,
> {
    unused_indices(covered(ts.take(k)), num_rays)
}

/// The `k`-th target of `ts` is what a search locates after the ones before
/// it, with `hs` as the hypotheses of its fit and `lines` as its rays: the
/// fit runs over the rays that are free at that time, its outcome gives the
/// rays of the target, `refine` turns the seed of that outcome into the
/// position, and `residual` gives the error of the position.
pub open spec fn located_with<P, D, S, C, R, E>(
    ts: Seq<LocatedTargetView<P, D>>,
    k: int,
    hs: Seq<HypothesisView<P>>,
    lines: Vec<usize>,
    plan: SearchPlan<S, C, R, E>,
) -> bool where
    S: Fn(usize, usize, usize) -> P,
    C: Fn(&P, usize) -> bool,
    R: Fn(&Vec<usize>, &P) -> P,
    E: Fn(&Vec<usize>, &P) -> D,
 {
    let free = free_before(ts, k, plan.num_rays);
    &&& fitted(hs, free, plan.iterations, plan.seed_of, plan.is_inlier)
    &&& best_of(hs, plan.min_lines) matches Some(h)
    &&& lines@ == selected(free, h.inliers)
    &&& ts[k].lines == lines@
    &&& call_ensures(plan.refine, (&lines, &h.position), ts[k].position)
    &&& call_ensures(plan.residual, (&lines, &ts[k].position), ts[k].avg_error_dist_m)
}

/// The `k`-th target of `ts` is what a search locates after the ones before
/// it.
pub open spec fn located_by<P, D, S, C, R, E>(
    ts: Seq<LocatedTargetView<P, D>>,
    k: int,
    plan: SearchPlan<S, C, R, E>,
) -> bool where
    S: Fn(usize, usize, usize) -> P,
    C: Fn(&P, usize) -> bool,
    R: Fn(&Vec<usize>, &P) -> P,
    E: Fn(&Vec<usize>, &P) -> D,
 {
    exists|hs: Seq<HypothesisView<P>>, lines: Vec<usize>| #[trigger]
        located_with(ts, k, hs, lines, plan)
}

/// Every target of `ts` is what a search locates after the ones before it.
pub open spec fn located_in_turn<P, D, S, C, R, E>(
    ts: Seq<LocatedTargetView<P, D>>,
    plan: SearchPlan<S, C, R, E>,
) -> bool where
    S: Fn(usize, usize, usize) -> P,
    C: Fn(&P, usize) -> bool,
    R: Fn(&Vec<usize>, &P) -> P,
    E: Fn(&Vec<usize>, &P) -> D,
 {
    forall|k: int| 0 <= k < ts.len() ==> #[trigger] located_by(ts, k, plan)
}

/// After the targets `ts` no further one can be found: fewer than
/// `min_lines` rays are free, or a fit over the free rays has no hypothesis
/// with `min_lines` inliers.
pub open spec fn exhausted<P, D, S, C, R, E>(
    ts: Seq<LocatedTargetView<P, D>>,
    plan: SearchPlan<S, C, R, E>,
) -> bool where
    S: Fn(usize, usize, usize) -> P,
    C: Fn(&P, usize) -> bool,
    R: Fn(&Vec<usize>, &P) -> P,
    E: Fn(&Vec<usize>, &P) -> D,
 {
    let free = free_before(ts, ts.len() as int, plan.num_rays);
    ||| free.len() < plan.min_lines
    ||| exists|hs: Seq<HypothesisView<P>>| #[trigger]
        fitted(hs, free, plan.iterations, plan.seed_of, plan.is_inlier) && best_of(
            hs,
            plan.min_lines,
        ) is None
}

/// The kernels of a search can be called on the rays of the measurement
/// array: `seed_of` on every three distinct rays, `is_inlier` on every ray,
/// `refine` and `residual` on every ascending list of at least `min_lines`
/// rays.
pub open spec fn plan_accepted<P, D, S, C, R, E>(plan: SearchPlan<S, C, R, E>) -> bool where
    S: Fn(usize, usize, usize) -> P,
    C: Fn(&P, usize) -> bool,
    R: Fn(&Vec<usize>, &P) -> P,
    E: Fn(&Vec<usize>, &P) -> D,
 {
    &&& forall|a: usize, b: usize, c: usize|
        a < plan.num_rays && b < plan.num_rays && c < plan.num_rays && a != b && a != c && b != c
            ==> #[trigger] call_requires(plan.seed_of, (a, b, c))
    &&& forall|p: &P, i: usize|
        i < plan.num_rays ==> #[trigger] call_requires(plan.is_inlier, (p, i))
    &&& forall|lines: &Vec<usize>, p: &P|
        strictly_increasing(lines@) && all_below(lines@, plan.num_rays) && lines@.len()
            >= plan.min_lines ==> #[trigger] call_requires(plan.refine, (lines, p))
    &&& forall|lines: &Vec<usize>, p: &P|
        strictly_increasing(lines@) && all_below(lines@, plan.num_rays) && lines@.len()
            >= plan.min_lines ==> #[trigger] call_requires(plan.residual, (lines, p))
}

/// Locates every target among `num_rays` rays that at least
/// `min_lines_per_target` rays agree on.
///
/// Targets are located one at a time. For each, a consensus fit of
/// `ransac_iterations` rounds runs over the rays that no earlier target has
/// consumed, with `seed_of` and `is_inlier` as its kernels; `refine` turns
/// the seed of the outcome into the position of the target and `residual`
/// gives its error. The search ends when fewer than `min_lines_per_target`
/// rays are free or a fit has no outcome.
///
/// The targets are numbered from 1 in the order of discovery, each is
/// supported by at least `min_lines_per_target` rays, no ray supports two of
/// them, and there are at most `num_rays / min_lines_per_target` of them.
pub fn find_targets<P, D, S, C, R, E>(
    num_rays: usize,
    ransac_iterations: usize,
    min_lines_per_target: usize,
    rng: &mut StdRng,
    seed_of: &S,
    is_inlier: &C,
    refine: &R,
    residual: &E,
) -> (found: Vec<LocatedTarget<P, D>>) where
    S: Fn(usize, usize, usize) -> P,
    C: Fn(&P, usize) -> bool,
    R: Fn(&Vec<usize>, &P) -> P,
    E: Fn(&Vec<usize>, &P) -> D,

    requires
        min_lines_per_target >= 1,
        plan_accepted(
            (SearchPlan {
                num_rays: num_rays as nat,
                iterations: ransac_iterations as nat,
                min_lines: min_lines_per_target as nat,
                seed_of: *seed_of,
                is_inlier: *is_inlier,
                refine: *refine,
                residual: *residual,
            }),
        ),
    ensures
        valid_targets(views(found@), num_rays as nat, min_lines_per_target as nat),
        forall|k: int|
            0 <= k < found.len() ==> found[k].num_lines >= min_lines_per_target
                && found[k].num_lines == found[k].lines.len(),
        forall|a: int, b: int|
            0 <= a < b < found.len() ==> disjoint_lines(
                (#[trigger] found[a]).lines@,
                (#[trigger] found[b]).lines@,
            ),
        found.len() <= num_rays / min_lines_per_target,
        num_rays < min_lines_per_target ==> found.len() == 0,
        located_in_turn(
            views(found@),
            (SearchPlan {
                num_rays: num_rays as nat,
                iterations: ransac_iterations as nat,
                min_lines: min_lines_per_target as nat,
                seed_of: *seed_of,
                is_inlier: *is_inlier,
                refine: *refine,
                residual: *residual,
            }),
        ),
        exhausted(
            views(found@),
            (SearchPlan {
                num_rays: num_rays as nat,
                iterations: ransac_iterations as nat,
                min_lines: min_lines_per_target as nat,
                seed_of: *seed_of,
                is_inlier: *is_inlier,
                refine: *refine,
                residual: *residual,
            }),
        ),
{
    let ghost plan = SearchPlan {
        num_rays: num_rays as nat,
        iterations: ransac_iterations as nat,
        min_lines: min_lines_per_target as nat,
        seed_of: *seed_of,
        is_inlier: *is_inlier,
        refine: *refine,
        residual: *residual,
    };
    let mut search: TargetSearch<P, D> = TargetSearch::new(num_rays, min_lines_per_target);
    assert(located_in_turn(search.targets(), plan));
    loop
        invariant_except_break
            search.phase() == Phase::SelectRemaining,
        invariant
            search.wf(),
            search.num_rays() == num_rays,
            search.min_lines() == min_lines_per_target,
            plan.num_rays == num_rays,
            plan.iterations == ransac_iterations,
            plan.min_lines == min_lines_per_target,
            plan.seed_of == *seed_of,
            plan.is_inlier == *is_inlier,
            plan.refine == *refine,
            plan.residual == *residual,
            plan_accepted(plan),
            located_in_turn(search.targets(), plan),
        ensures
            search.wf(),
            search.num_rays() == num_rays,
            search.min_lines() == min_lines_per_target,
            located_in_turn(search.targets(), plan),
            exhausted(search.targets(), plan),
        decreases num_rays - search.used().len(),
    {
        let ghost before = search.targets();
        proof {
            search.lemma_invariants();
            assert(before.take(before.len() as int) =~= before);
        }
        if !search.select_remaining() {
            break ;
        }
        let ghost free = search.remaining();
        let mut fit = search.begin_consensus(ransac_iterations);
        proof {
            assert forall|t: (usize, usize, usize)| #[trigger]
                distinct_triple(t, free.len()) implies call_requires(
                *seed_of,
                (free[t.0 as int], free[t.1 as int], free[t.2 as int]),
            ) by {
                assert(free[t.0 as int] != free[t.1 as int]);
                assert(free[t.0 as int] != free[t.2 as int]);
                assert(free[t.1 as int] != free[t.2 as int]);
            }
            assert(kernels_accept(free, *seed_of, *is_inlier));
        }
        fit.run(search.remaining_rays(), rng, seed_of, is_inlier);
        let ghost hs = fit.considered();
        assert(fitted(hs, free, plan.iterations, *seed_of, *is_inlier));
        if !search.propose(fit) {
            break ;
        }
        let ghost lines = search.target_list();
        let refined = refine(search.proposed_lines(), search.proposed_seed());
        search.refined(refined);
        let avg_error = residual(search.proposed_lines(), search.refined_at());
        search.commit(avg_error);
        proof {
            let after = search.targets();
            let k = before.len() as int;
            assert(after.take(k) =~= before);
            assert(located_with(after, k, hs, lines, plan));
            assert forall|j: int| 0 <= j < after.len() implies #[trigger] located_by(
                after,
                j,
                plan,
            ) by {
                if j < k {
                    assert(located_by(before, j, plan));
                    let (hs0, lines0) = choose|hs: Seq<HypothesisView<P>>, lines: Vec<usize>| #[trigger]
                        located_with(before, j, hs, lines, plan);
                    assert(after.take(j) =~= before.take(j));
                    assert(after[j] == before[j]);
                    assert(located_with(after, j, hs0, lines0, plan));
                }
            }
        }
    }
    search.into_targets()
}

} // verus!
