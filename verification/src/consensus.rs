//! Consensus fitting: a fixed number of rounds, each proposing one
//! hypothesis from three sampled rays, and the best-supported hypothesis
//! kept.
//!
//! The caller computes, for each sample, the seed position and one flag per
//! ray of the pool saying whether that ray passes within the threshold of the
//! seed. Which rays count as inliers, whether a hypothesis replaces the best
//! one, and when the rounds are over is decided here.

use crate::indices::{all_below, indices_where, lemma_indices_where, strictly_increasing};
use crate::sampler::{distinct_triple, sample_triple};
use rand::rngs::StdRng;
use vstd::prelude::*;

verus! {

/// Hypotheses proposed per target unless the caller chooses otherwise.
pub const DEFAULT_RANSAC_ITERATIONS: usize = 100;

/// A candidate position together with the rays that support it, given by
/// their positions in the pool in ascending order.
#[derive(Debug, Clone)]
pub struct Hypothesis<P> {
    pub position: P,
    pub inliers: Vec<usize>,
}

/// The mathematical content of a `Hypothesis`.
pub ghost struct HypothesisView<P> {
    pub position: P,
    pub inliers: Seq<usize>,
}

impl<P> View for Hypothesis<P> {
    type V = HypothesisView<P>;

    open spec fn view(&self) -> HypothesisView<P> {
        HypothesisView { position: self.position, inliers: self.inliers@ }
    }
}

/// The positions at which `flags` is set, in ascending order.
pub open spec fn inlier_indices(flags: Seq<bool>) -> Seq<usize> {
    indices_where(flags.len(), |i: usize| flags[i as int])
}

/// Position `k` holds a hypothesis that no other one beats and that no
/// earlier one equals in support.
pub open spec fn is_first_maximum<P>(hs: Seq<HypothesisView<P>>, k: int) -> bool {
    &&& 0 <= k < hs.len()
    &&& forall|j: int| 0 <= j < hs.len() ==> hs[j].inliers.len() <= hs[k].inliers.len()
    &&& forall|j: int| 0 <= j < k ==> hs[j].inliers.len() < hs[k].inliers.len()
}

/// Position of the hypothesis with the most inliers, the earliest one among
/// equals. Zero for an empty sequence.
pub open spec fn leader<P>(hs: Seq<HypothesisView<P>>) -> int
    decreases hs.len(),
{
    if hs.len() <= 1 {
        0
    } else {
        let earlier = leader(hs.drop_last());
        if hs.last().inliers.len() > hs[earlier].inliers.len() {
            hs.len() - 1
        } else {
            earlier
        }
    }
}

/// The outcome of a fit over the hypotheses `hs`: the leading hypothesis if
/// it has at least `min_lines` inliers, and nothing otherwise.
pub open spec fn best_of<P>(hs: Seq<HypothesisView<P>>, min_lines: nat) -> Option<
    HypothesisView<P>,
> {
    if hs.len() > 0 && hs[leader(hs)].inliers.len() >= min_lines {
        Some(hs[leader(hs)])
    } else {
        None
    }
}

/// Among one or more hypotheses the leader is the one with the largest
/// inlier count, and of several with that count the one proposed first.
pub proof fn lemma_leader_is_first_maximum<P>(hs: Seq<HypothesisView<P>>)
    requires
        hs.len() > 0,
    ensures
        is_first_maximum(hs, leader(hs)),
        forall|k: int| is_first_maximum(hs, k) ==> k == leader(hs),
    decreases hs.len(),
{
    if hs.len() > 1 {
        let front = hs.drop_last();
        lemma_leader_is_first_maximum(front);
        assert(forall|j: int| 0 <= j < front.len() ==> front[j] == hs[j]);
        assert(is_first_maximum(hs, leader(hs)));
    }
    assert forall|k: int| is_first_maximum(hs, k) implies k == leader(hs) by {
        let l = leader(hs);
        if k < l {
            assert(hs[k].inliers.len() < hs[l].inliers.len());
        } else if l < k {
            assert(hs[l].inliers.len() < hs[k].inliers.len());
        }
    }
}

/// A fit returns a hypothesis exactly when some hypothesis has at least
/// `min_lines` inliers, and then it returns the first of those with the
/// largest count.
pub proof fn lemma_best_of<P>(hs: Seq<HypothesisView<P>>, min_lines: nat)
    ensures
        best_of(hs, min_lines) is Some <==> exists|j: int|
            0 <= j < hs.len() && (#[trigger] hs[j]).inliers.len() >= min_lines,
        best_of(hs, min_lines) is Some ==> {
            &&& is_first_maximum(hs, leader(hs))
            &&& best_of(hs, min_lines) == Some(hs[leader(hs)])
            &&& hs[leader(hs)].inliers.len() >= min_lines
        },
{
    if hs.len() > 0 {
        lemma_leader_is_first_maximum(hs);
        if best_of(hs, min_lines) is Some {
            assert(hs[leader(hs)].inliers.len() >= min_lines);
        }
    }
}

/// How the leader moves when one more hypothesis is proposed.
proof fn lemma_leader_push<P>(hs: Seq<HypothesisView<P>>, h: HypothesisView<P>)
    ensures
        hs.len() > 0 ==> 0 <= leader(hs) < hs.len(),
        leader(hs.push(h)) == if hs.len() == 0 || h.inliers.len() > hs[leader(hs)].inliers.len() {
            hs.len() as int
        } else {
            leader(hs)
        },
{
    if hs.len() > 0 {
        lemma_leader_is_first_maximum(hs);
    }
    let longer = hs.push(h);
    assert(longer.drop_last() == hs);
    assert(longer.last() == h);
    if hs.len() > 0 {
        assert(longer[leader(hs)] == hs[leader(hs)]);
    }
}

/// A ray is listed as an inlier exactly when its flag is set.
pub proof fn lemma_inliers_follow_flags(flags: Seq<bool>)
    requires
        flags.len() <= usize::MAX,
    ensures
        strictly_increasing(inlier_indices(flags)),
        all_below(inlier_indices(flags), flags.len()),
        forall|i: usize| i < flags.len() ==> (flags[i as int] <==> inlier_indices(flags).contains(i)),
{
    let keep = |k: usize| flags[k as int];
    let inliers = inlier_indices(flags);
    lemma_indices_where(flags.len(), keep);
    assert forall|i: usize| i < flags.len() implies (flags[i as int] <==> inliers.contains(i)) by {
        if flags[i as int] {
            assert(keep(i));
        }
        if inliers.contains(i) {
            let k = choose|k: int| 0 <= k < inliers.len() && inliers[k] == i;
            assert(keep(inliers[k]));
        }
    }
}

/// Lists the positions at which `flags` is set, in ascending order.
pub fn collect_inliers(flags: &Vec<bool>) -> (inliers: Vec<usize>)
    ensures
        inliers@ == inlier_indices(flags@),
        strictly_increasing(inliers@),
        all_below(inliers@, flags.len() as nat),
        forall|i: int| 0 <= i < flags.len() ==> (flags[i] <==> inliers@.contains(i as usize)),
{
    let mut inliers: Vec<usize> = Vec::new();
    let mut i: usize = 0;
    while i < flags.len()
        invariant
            i <= flags.len(),
            inliers@ == indices_where(i as nat, |k: usize| flags@[k as int]),
        decreases flags.len() - i,
    {
        if flags[i] {
            inliers.push(i);
        }
        i = i + 1;
    }
    proof {
        let keep = |k: usize| flags@[k as int];
        lemma_indices_where(flags.len() as nat, keep);
        assert forall|i: int| 0 <= i < flags.len() implies (flags[i] <==> inliers@.contains(
            i as usize,
        )) by {
            if flags[i] {
                assert(keep(i as usize));
            }
            if inliers@.contains(i as usize) {
                let k = choose|k: int| 0 <= k < inliers@.len() && inliers@[k] == i as usize;
                assert(keep(inliers@[k]));
            }
        }
    }
    inliers
}

/// The state of one consensus fit over a pool of `pool_len` rays.
pub struct Consensus<P> {
    pool_len: usize,
    min_lines: usize,
    iterations: usize,
    rounds_left: usize,
    awaiting: bool,
    best: Option<Hypothesis<P>>,
    considered: Ghost<Seq<HypothesisView<P>>>,
}

impl<P> Consensus<P> {
    /// Number of rays in the pool.
    pub closed spec fn pool_len(&self) -> nat {
        self.pool_len as nat
    }

    /// Fewest inliers a hypothesis needs to be accepted.
    pub closed spec fn min_lines(&self) -> nat {
        self.min_lines as nat
    }

    /// Number of rounds that the fit was started with.
    pub closed spec fn iterations(&self) -> nat {
        self.iterations as nat
    }

    /// Rounds that have not been started yet.
    pub closed spec fn rounds_left(&self) -> nat {
        self.rounds_left as nat
    }

    /// Whether a sample has been handed out whose hypothesis is still owed.
    pub closed spec fn awaiting(&self) -> bool {
        self.awaiting
    }

    /// Every hypothesis recorded so far, in the order of the rounds.
    pub closed spec fn considered(&self) -> Seq<HypothesisView<P>> {
        self.considered@
    }

    /// The hypothesis currently held as best.
    pub closed spec fn best(&self) -> Option<HypothesisView<P>> {
        match self.best {
            Some(h) => Some(h@),
            None => None,
        }
    }

    /// The held hypothesis is the outcome of a fit over all that were
    /// recorded, every recorded inlier list is an ascending list of
    /// positions in the pool, and no round yields more than one hypothesis.
    pub closed spec fn wf(&self) -> bool {
        &&& self.best() == best_of(self.considered@, self.min_lines as nat)
        &&& self.considered@.len() + self.rounds_left + (if self.awaiting {
            1nat
        } else {
            0nat
        }) <= self.iterations
        &&& forall|k: int|
            0 <= k < self.considered@.len() ==> {
                &&& strictly_increasing(#[trigger] self.considered@[k].inliers)
                &&& all_below(self.considered@[k].inliers, self.pool_len as nat)
            }
        &&& self.awaiting ==> self.pool_len >= 3
        &&& self.pool_len < 3 ==> self.considered@.len() == 0
    }

    /// In every state of a fit the held hypothesis is the outcome over all
    /// that were recorded, no more hypotheses were recorded than rounds were
    /// started, and a pool of fewer than three rays has none.
    pub proof fn lemma_invariants(&self)
        requires
            self.wf(),
        ensures
            self.best() == best_of(self.considered(), self.min_lines()),
            self.considered().len() + self.rounds_left() <= self.iterations(),
            self.pool_len() < 3 ==> self.considered().len() == 0,
            self.awaiting() ==> self.pool_len() >= 3,
            forall|k: int|
                0 <= k < self.considered().len() ==> {
                    &&& strictly_increasing(#[trigger] self.considered()[k].inliers)
                    &&& all_below(self.considered()[k].inliers, self.pool_len())
                },
    {
    }

    /// Starts a fit of `iterations` rounds over a pool of `pool_len` rays.
    pub fn new(pool_len: usize, iterations: usize, min_lines: usize) -> (c: Self)
        ensures
            c.wf(),
            c.pool_len() == pool_len,
            c.min_lines() == min_lines,
            c.iterations() == iterations,
            c.rounds_left() == iterations,
            !c.awaiting(),
            c.considered() == Seq::<HypothesisView<P>>::empty(),
            c.best() is None,
    {
        Consensus {
            pool_len,
            min_lines,
            iterations,
            rounds_left: iterations,
            awaiting: false,
            best: None,
            considered: Ghost(Seq::empty()),
        }
    }

    /// Number of rays in the pool.
    pub fn pool_size(&self) -> (n: usize)
        ensures
            n == self.pool_len(),
    {
        self.pool_len
    }

    /// Fewest inliers a hypothesis needs to be accepted.
    pub fn min_inliers(&self) -> (n: usize)
        ensures
            n == self.min_lines(),
    {
        self.min_lines
    }

    /// Rounds that have not been started yet.
    pub fn remaining_rounds(&self) -> (n: usize)
        ensures
            n == self.rounds_left(),
    {
        self.rounds_left
    }

    /// Whether a sample has been handed out whose hypothesis is still owed.
    pub fn is_awaiting(&self) -> (b: bool)
        ensures
            b == self.awaiting(),
    {
        self.awaiting
    }

    /// Starts the next round: hands out three distinct positions in the pool
    /// to build a hypothesis from.
    ///
    /// There is a next round as long as rounds are left and the pool holds at
    /// least three rays. Which positions are handed out depends on the
    /// generator.
    pub fn next_sample(&mut self, rng: &mut StdRng) -> (sample: Option<(usize, usize, usize)>)
        requires
            old(self).wf(),
        ensures
            final(self).wf(),
            final(self).pool_len() == old(self).pool_len(),
            final(self).min_lines() == old(self).min_lines(),
            final(self).iterations() == old(self).iterations(),
            final(self).considered() == old(self).considered(),
            final(self).best() == old(self).best(),
            sample is Some <==> old(self).pool_len() >= 3 && old(self).rounds_left() > 0,
            sample matches Some(t) ==> {
                &&& distinct_triple(t, old(self).pool_len())
                &&& final(self).rounds_left() == old(self).rounds_left() - 1
                &&& final(self).awaiting()
            },
            sample is None ==> {
                &&& final(self).rounds_left() == old(self).rounds_left()
                &&& final(self).awaiting() == old(self).awaiting()
            },
    {
        if self.pool_len < 3 || self.rounds_left == 0 {
            return None;
        }
        let t = sample_triple(rng, self.pool_len);
        self.rounds_left = self.rounds_left - 1;
        self.awaiting = true;
        Some(t)
    }

    /// Records the hypothesis of the current round: its seed position and,
    /// for each ray of the pool, whether the ray is an inlier of that seed.
    ///
    /// The hypothesis becomes the best one if it has at least `min_lines`
    /// inliers and more than the best one so far; the result says whether it
    /// did.
    pub fn record(&mut self, position: P, flags: &Vec<bool>) -> (replaced: bool)
        requires
            old(self).wf(),
            old(self).awaiting(),
            flags.len() == old(self).pool_len(),
        ensures
            final(self).wf(),
            final(self).pool_len() == old(self).pool_len(),
            final(self).min_lines() == old(self).min_lines(),
            final(self).iterations() == old(self).iterations(),
            final(self).rounds_left() == old(self).rounds_left(),
            !final(self).awaiting(),
            final(self).considered() == old(self).considered().push(
                HypothesisView { position, inliers: inlier_indices(flags@) },
            ),
            final(self).best() == best_of(final(self).considered(), final(self).min_lines()),
            replaced <==> {
                &&& inlier_indices(flags@).len() >= old(self).min_lines()
                &&& leader(final(self).considered()) == old(self).considered().len()
            },
    {
        let inliers = collect_inliers(flags);
        let ghost proposed = HypothesisView { position, inliers: inliers@ };
        let ghost before = self.considered@;
        proof {
            lemma_leader_push(before, proposed);
        }
        let beats = match &self.best {
            Some(held) => inliers.len() > held.inliers.len(),
            None => true,
        };
        let replaced = beats && inliers.len() >= self.min_lines;
        self.considered = Ghost(before.push(proposed));
        self.awaiting = false;
        if replaced {
            self.best = Some(Hypothesis { position, inliers });
        }
        proof {
            let after = before.push(proposed);
            assert(forall|k: int| 0 <= k < before.len() ==> after[k] == before[k]);
            assert(after[before.len() as int] == proposed);
        }
        replaced
    }

    /// Ends the fit and hands out its outcome.
    ///
    /// The outcome is the recorded hypothesis with the most inliers, the
    /// first one among equals, provided it has at least `min_lines` inliers.
    /// A pool of fewer than three rays never yields one.
    pub fn into_best(self) -> (found: Option<Hypothesis<P>>)
        requires
            self.wf(),
        ensures
            (match found {
                Some(h) => Some(h@),
                None => None,
            }) == best_of(self.considered(), self.min_lines()),
            self.considered().len() <= self.iterations(),
            self.pool_len() < 3 ==> found is None,
            found matches Some(h) ==> {
                &&& h.inliers.len() >= self.min_lines()
                &&& strictly_increasing(h.inliers@)
                &&& all_below(h.inliers@, self.pool_len())
            },
    {
        proof {
            if self.considered@.len() > 0 {
                lemma_leader_is_first_maximum(self.considered@);
            }
        }
        self.best
    }
}

/// `h` is a hypothesis that a fit over `pool` builds with the kernels
/// `seed_of` and `is_inlier`, where `pool` lists the rays of the pool by
/// their index in the measurement array: its position is what `seed_of`
/// returns for three rays at distinct places of the pool, and its inliers are
/// exactly the places of the pool whose ray `is_inlier` accepts for that
/// position.
pub open spec fn built_by<P, S, C>(
    h: HypothesisView<P>,
    pool: Seq<usize>,
    seed_of: S,
    is_inlier: C,
) -> bool where S: Fn(usize, usize, usize) -> P, C: Fn(&P, usize) -> bool {
    &&& exists|t: (usize, usize, usize)|
        #[trigger] distinct_triple(t, pool.len()) && call_ensures(
            seed_of,
            (pool[t.0 as int], pool[t.1 as int], pool[t.2 as int]),
            h.position,
        )
    &&& strictly_increasing(h.inliers)
    &&& all_below(h.inliers, pool.len())
    &&& forall|k: usize|
        k < pool.len() ==> call_ensures(
            is_inlier,
            (&h.position, #[trigger] pool[k as int]),
            h.inliers.contains(k),
        )
}

/// `hs` are the hypotheses of a whole fit over `pool`: one for each of the
/// `iterations` rounds, or none where the pool holds fewer than three rays,
/// each built with the kernels.
pub open spec fn fitted<P, S, C>(
    hs: Seq<HypothesisView<P>>,
    pool: Seq<usize>,
    iterations: nat,
    seed_of: S,
    is_inlier: C,
) -> bool where S: Fn(usize, usize, usize) -> P, C: Fn(&P, usize) -> bool {
    &&& hs.len() == if pool.len() >= 3 {
        iterations
    } else {
        0nat
    }
    &&& forall|k: int| 0 <= k < hs.len() ==> built_by(#[trigger] hs[k], pool, seed_of, is_inlier)
}

/// The kernels can be called on every ray and every three distinct rays of
/// `pool`.
pub open spec fn kernels_accept<P, S, C>(pool: Seq<usize>, seed_of: S, is_inlier: C) -> bool where
    S: Fn(usize, usize, usize) -> P,
    C: Fn(&P, usize) -> bool,
 {
    &&& forall|t: (usize, usize, usize)|
        #[trigger] distinct_triple(t, pool.len()) ==> call_requires(
            seed_of,
            (pool[t.0 as int], pool[t.1 as int], pool[t.2 as int]),
        )
    &&& forall|p: &P, k: usize|
        k < pool.len() ==> #[trigger] call_requires(is_inlier, (p, pool[k as int]))
}

/// Asks `is_inlier` about every ray of the pool.
fn classify<P, C>(pool: &Vec<usize>, position: &P, is_inlier: &C) -> (flags: Vec<bool>) where
    C: Fn(&P, usize) -> bool,

    requires
        forall|p: &P, k: usize|
            k < pool.len() ==> #[trigger] call_requires(*is_inlier, (p, pool[k as int])),
    ensures
        flags.len() == pool.len(),
        forall|k: usize|
            k < pool.len() ==> call_ensures(
                *is_inlier,
                (position, #[trigger] pool[k as int]),
                flags[k as int],
            ),
{
    let mut flags: Vec<bool> = Vec::new();
    let mut k: usize = 0;
    while k < pool.len()
        invariant
            k <= pool.len(),
            flags.len() == k,
            forall|p: &P, j: usize|
                j < pool.len() ==> #[trigger] call_requires(*is_inlier, (p, pool[j as int])),
            forall|j: usize|
                j < k ==> call_ensures(
                    *is_inlier,
                    (position, #[trigger] pool[j as int]),
                    flags[j as int],
                ),
        decreases pool.len() - k,
    {
        let flag = is_inlier(position, pool[k]);
        flags.push(flag);
        k = k + 1;
    }
    flags
}

impl<P> Consensus<P> {
    /// Runs every round that is left: samples three rays of `pool`, has
    /// `seed_of` turn them into a seed position and `is_inlier` say which rays
    /// of `pool` support it, and records the hypothesis.
    pub fn run<S, C>(&mut self, pool: &Vec<usize>, rng: &mut StdRng, seed_of: &S, is_inlier: &C)
        where S: Fn(usize, usize, usize) -> P, C: Fn(&P, usize) -> bool
        requires
            old(self).wf(),
            !old(self).awaiting(),
            pool.len() == old(self).pool_len(),
            kernels_accept(pool@, *seed_of, *is_inlier),
        ensures
            final(self).wf(),
            !final(self).awaiting(),
            final(self).pool_len() == old(self).pool_len(),
            final(self).min_lines() == old(self).min_lines(),
            final(self).iterations() == old(self).iterations(),
            final(self).rounds_left() == if pool.len() >= 3 {
                0nat
            } else {
                old(self).rounds_left()
            },
            final(self).considered().len() == old(self).considered().len() + if pool.len() >= 3 {
                old(self).rounds_left()
            } else {
                0nat
            },
            forall|k: int|
                0 <= k < old(self).considered().len() ==> final(self).considered()[k] == old(
                    self,
                ).considered()[k],
            forall|k: int|
                old(self).considered().len() <= k < final(self).considered().len() ==> built_by(
                    #[trigger] final(self).considered()[k],
                    pool@,
                    *seed_of,
                    *is_inlier,
                ),
    {
        let ghost start = self.considered();
        let ghost rounds = self.rounds_left();
        loop
            invariant
                self.wf(),
                !self.awaiting(),
                self.pool_len() == pool.len(),
                self.pool_len() == old(self).pool_len(),
                self.min_lines() == old(self).min_lines(),
                self.iterations() == old(self).iterations(),
                start == old(self).considered(),
                rounds == old(self).rounds_left(),
                pool.len() < 3 ==> self.rounds_left() == rounds,
                self.considered().len() + self.rounds_left() == start.len() + rounds,
                self.rounds_left() <= rounds,
                forall|k: int| 0 <= k < start.len() ==> self.considered()[k] == start[k],
                forall|k: int|
                    start.len() <= k < self.considered().len() ==> built_by(
                        #[trigger] self.considered()[k],
                        pool@,
                        *seed_of,
                        *is_inlier,
                    ),
                kernels_accept(pool@, *seed_of, *is_inlier),
            ensures
                self.wf(),
                !self.awaiting(),
                self.pool_len() == old(self).pool_len(),
                self.min_lines() == old(self).min_lines(),
                self.iterations() == old(self).iterations(),
                pool.len() < 3 ==> self.rounds_left() == rounds,
                pool.len() >= 3 ==> self.rounds_left() == 0,
                self.considered().len() + self.rounds_left() == start.len() + rounds,
                forall|k: int| 0 <= k < start.len() ==> self.considered()[k] == start[k],
                forall|k: int|
                    start.len() <= k < self.considered().len() ==> built_by(
                        #[trigger] self.considered()[k],
                        pool@,
                        *seed_of,
                        *is_inlier,
                    ),
            decreases self.rounds_left(),
        {
            let ghost before = self.considered();
            match self.next_sample(rng) {
                None => {
                    break ;
                },
                Some(t) => {
                    assert(distinct_triple(t, pool@.len()));
                    let position = seed_of(pool[t.0], pool[t.1], pool[t.2]);
                    let flags = classify(pool, &position, is_inlier);
                    proof {
                        let proposed = HypothesisView {
                            position,
                            inliers: inlier_indices(flags@),
                        };
                        lemma_inliers_follow_flags(flags@);
                        assert(built_by(proposed, pool@, *seed_of, *is_inlier));
                    }
                    self.record(position, &flags);
                    proof {
                        let after = self.considered();
                        assert forall|k: int| 0 <= k < start.len() implies after[k] == start[k] by {
                            assert(after[k] == before[k]);
                        }
                        assert forall|k: int| start.len() <= k < after.len() implies built_by(
                            #[trigger] after[k],
                            pool@,
                            *seed_of,
                            *is_inlier,
                        ) by {
                            if k < before.len() {
                                assert(after[k] == before[k]);
                            }
                        }
                    }
                },
            }
        }
    }
}

/// Fits a position to the rays listed in `pool`: `ransac_iterations` times
/// three distinct rays are sampled, `seed_of` turns them into a seed
/// position, `is_inlier` says for each ray of the pool whether it supports
/// the seed, and the best-supported seed is kept.
///
/// The result is the outcome of a fit over the hypotheses so built, one for
/// each round: the position and the inliers of the one with the most
/// inliers, the first among equals, if it has at least `min_lines` inliers.
/// The inliers are places in `pool`, in ascending order. A pool of fewer
/// than three rays has no rounds.
pub fn ransac_fit_lines<P, S, C>(
    pool: &Vec<usize>,
    ransac_iterations: usize,
    min_lines: usize,
    rng: &mut StdRng,
    seed_of: &S,
    is_inlier: &C,
) -> (found: Option<(P, Vec<usize>)>) where
    S: Fn(usize, usize, usize) -> P,
    C: Fn(&P, usize) -> bool,

    requires
        kernels_accept(pool@, *seed_of, *is_inlier),
    ensures
        exists|hs: Seq<HypothesisView<P>>| #[trigger]
            fitted(hs, pool@, ransac_iterations as nat, *seed_of, *is_inlier) && (match found {
                Some((position, inliers)) => Some(
                    HypothesisView { position, inliers: inliers@ },
                ),
                None => None,
            }) == best_of(hs, min_lines as nat),
        found matches Some((position, inliers)) ==> {
            &&& inliers.len() >= min_lines
            &&& built_by(
                HypothesisView { position, inliers: inliers@ },
                pool@,
                *seed_of,
                *is_inlier,
            )
        },
        pool.len() < 3 ==> found is None,
{
    let mut fit: Consensus<P> = Consensus::new(pool.len(), ransac_iterations, min_lines);
    fit.run(pool, rng, seed_of, is_inlier);
    proof {
        let hs = fit.considered();
        assert(fitted(hs, pool@, ransac_iterations as nat, *seed_of, *is_inlier));
        lemma_best_of(hs, min_lines as nat);
    }
    match fit.into_best() {
        Some(best) => Some((best.position, best.inliers)),
        None => None,
    }
}

} // verus!
