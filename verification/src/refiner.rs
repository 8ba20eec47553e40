//! The control of the damped least-squares refinement: which trial steps are
//! accepted, how the damping moves, and when the iteration stops.
//!
//! The caller solves the damped normal equations and compares the sums of
//! squared residuals; it reports what came of each trial step and does what
//! the decision says.

use vstd::prelude::*;

verus! {

/// Iterations of a refinement unless the caller chooses otherwise.
pub const DEFAULT_REFINER_MAX_ITERS: usize = 200;

/// What came of one trial step.
#[derive(Debug, Clone, Copy, PartialEq, Eq, Structural)]
pub enum StepOutcome {
    /// The damped normal equations could not be solved.
    Singular,
    /// The step lowers the sum of squared residuals.
    Decreased,
    /// The step does not lower the sum of squared residuals.
    NotDecreased,
}

/// How the damping parameter changes after a trial step.
#[derive(Debug, Clone, Copy, PartialEq, Eq, Structural)]
pub enum Damping {
    /// Multiply the damping parameter by ten.
    Raise,
    /// Divide the damping parameter by ten.
    Lower,
}

/// What to do after a trial step.
#[derive(Debug, Clone, Copy, PartialEq, Eq, Structural)]
pub struct StepDecision {
    /// Whether the current position moves to the trial position.
    pub accept: bool,
    pub damping: Damping,
}

/// The rule of the refinement: a step is accepted, and the damping lowered,
/// exactly when the step lowers the sum of squared residuals; in every other
/// case the position stays and the damping is raised.
pub open spec fn decide(outcome: StepOutcome) -> StepDecision {
    match outcome {
        StepOutcome::Decreased => StepDecision { accept: true, damping: Damping::Lower },
        StepOutcome::Singular => StepDecision { accept: false, damping: Damping::Raise },
        StepOutcome::NotDecreased => StepDecision { accept: false, damping: Damping::Raise },
    }
}

/// Number of accepted steps among `outcomes`.
pub open spec fn accepted_steps(outcomes: Seq<StepOutcome>) -> nat
    decreases outcomes.len(),
{
    if outcomes.len() == 0 {
        0
    } else {
        accepted_steps(outcomes.drop_last()) + if decide(outcomes.last()).accept {
            1nat
        } else {
            0nat
        }
    }
}

/// The power of ten by which the damping parameter differs from its initial
/// value after `outcomes`.
pub open spec fn damping_exponent(outcomes: Seq<StepOutcome>) -> int {
    outcomes.len() - 2 * accepted_steps(outcomes)
}

/// The state of one refinement of at most `max_iters` iterations.
pub struct Refinement {
    max_iters: usize,
    done: usize,
    accepted: usize,
    outcomes: Ghost<Seq<StepOutcome>>,
}

impl Refinement {
    /// The cap on the number of iterations.
    pub closed spec fn max_iters(&self) -> nat {
        self.max_iters as nat
    }

    /// What came of the trial steps so far, in order.
    pub closed spec fn outcomes(&self) -> Seq<StepOutcome> {
        self.outcomes@
    }

    /// The counters agree with the outcomes, and the cap is kept.
    pub closed spec fn wf(&self) -> bool {
        &&& self.done == self.outcomes@.len()
        &&& self.done <= self.max_iters
        &&& self.accepted == accepted_steps(self.outcomes@)
        &&& self.accepted <= self.done
    }

    /// Starts a refinement of at most `max_iters` iterations.
    pub fn new(max_iters: usize) -> (r: Self)
        ensures
            r.wf(),
            r.max_iters() == max_iters,
            r.outcomes() == Seq::<StepOutcome>::empty(),
    {
        Refinement { max_iters, done: 0, accepted: 0, outcomes: Ghost(Seq::empty()) }
    }

    /// Whether another iteration is due.
    pub fn has_budget(&self) -> (more: bool)
        requires
            self.wf(),
        ensures
            more <==> self.outcomes().len() < self.max_iters(),
    {
        self.done < self.max_iters
    }

    /// Number of iterations so far.
    pub fn iterations_done(&self) -> (n: usize)
        requires
            self.wf(),
        ensures
            n == self.outcomes().len(),
            n <= self.max_iters(),
    {
        self.done
    }

    /// Number of accepted steps so far.
    pub fn steps_accepted(&self) -> (n: usize)
        requires
            self.wf(),
        ensures
            n == accepted_steps(self.outcomes()),
            n <= self.outcomes().len(),
    {
        self.accepted
    }

    /// Takes what came of the trial step of this iteration and decides
    /// whether the position moves and how the damping changes.
    pub fn advance(&mut self, outcome: StepOutcome) -> (decision: StepDecision)
        requires
            old(self).wf(),
            old(self).outcomes().len() < old(self).max_iters(),
        ensures
            final(self).wf(),
            final(self).max_iters() == old(self).max_iters(),
            final(self).outcomes() == old(self).outcomes().push(outcome),
            decision == decide(outcome),
    {
        let decision = match outcome {
            StepOutcome::Decreased => StepDecision { accept: true, damping: Damping::Lower },
            StepOutcome::Singular => StepDecision { accept: false, damping: Damping::Raise },
            StepOutcome::NotDecreased => StepDecision { accept: false, damping: Damping::Raise },
        };
        let ghost before = self.outcomes@;
        proof {
            assert(before.push(outcome).drop_last() =~= before);
        }
        self.outcomes = Ghost(before.push(outcome));
        self.done = self.done + 1;
        if decision.accept {
            self.accepted = self.accepted + 1;
        }
        decision
    }

    /// The iteration cap bounds everything: the number of iterations, the
    /// number of accepted steps, and how far the damping can have moved from
    /// its initial value in either direction.
    pub proof fn lemma_capped(&self)
        requires
            self.wf(),
        ensures
            self.outcomes().len() <= self.max_iters(),
            accepted_steps(self.outcomes()) <= self.outcomes().len(),
            -self.max_iters() <= damping_exponent(self.outcomes()) <= self.max_iters(),
    {
    }
}

/// What the caller's solver reports of one trial step.
#[derive(Debug, Clone)]
pub enum Trial<P> {
    /// The damped normal equations could not be solved.
    Singular,
    /// The trial position, and whether its sum of squared residuals is
    /// below that of the current position.
    Step { position: P, decreases: bool },
}

/// What came of a trial step.
pub open spec fn outcome_of<P>(trial: Trial<P>) -> StepOutcome {
    match trial {
        Trial::Singular => StepOutcome::Singular,
        Trial::Step { position, decreases } => if decreases {
            StepOutcome::Decreased
        } else {
            StepOutcome::NotDecreased
        },
    }
}

/// One iteration of the refinement: from the position `q` and the damping
/// `lambda` it leads to `next_q` and `next_lambda`.
///
/// The solver `solve` reports a trial step; the position moves to the trial
/// position exactly when the step lowers the sum of squared residuals, and
/// `scale` lowers the damping in that case and raises it in every other.
pub open spec fn refines_in_one_step<P, L, T, S>(
    q: P,
    lambda: L,
    next_q: P,
    next_lambda: L,
    solve: T,
    scale: S,
) -> bool where T: Fn(&P, &L) -> Trial<P>, S: Fn(&L, Damping) -> L {
    exists|trial: Trial<P>|
        {
            &&& #[trigger] call_ensures(solve, (&q, &lambda), trial)
            &&& next_q == if decide(outcome_of(trial)).accept {
                trial->position
            } else {
                q
            }
            &&& call_ensures(scale, (&lambda, decide(outcome_of(trial)).damping), next_lambda)
        }
}

/// `qs` and `lambdas` are the positions and dampings of a whole refinement:
/// they start at `initial_guess` and `initial_lambda`, and each of the
/// `iterations` iterations leads from one to the next.
pub open spec fn refinement_trace<P, L, T, S>(
    qs: Seq<P>,
    lambdas: Seq<L>,
    initial_guess: P,
    initial_lambda: L,
    iterations: nat,
    solve: T,
    scale: S,
) -> bool where T: Fn(&P, &L) -> Trial<P>, S: Fn(&L, Damping) -> L {
    &&& qs.len() == iterations + 1
    &&& lambdas.len() == iterations + 1
    &&& qs[0] == initial_guess
    &&& lambdas[0] == initial_lambda
    &&& forall|t: int|
        0 <= t < iterations ==> refines_in_one_step(
            #[trigger] qs[t],
            lambdas[t],
            qs[t + 1],
            lambdas[t + 1],
            solve,
            scale,
        )
}

/// Refines `initial_guess` in exactly `iterations` iterations of damped
/// least squares.
///
/// In each iteration `solve` reports a trial step from the current position
/// under the current damping. The step is taken exactly when it lowers the
/// sum of squared residuals; `scale` then lowers the damping, and raises it
/// when the step is not taken or the system was singular. The result is the
/// position after the last iteration.
pub fn levenberg_marquardt_optimize<P, L, T, S>(
    initial_guess: P,
    iterations: usize,
    initial_lambda: L,
    solve: &T,
    scale: &S,
) -> (refined: P) where T: Fn(&P, &L) -> Trial<P>, S: Fn(&L, Damping) -> L
    requires
        forall|q: &P, lambda: &L| call_requires(*solve, (q, lambda)),
        forall|lambda: &L, damping: Damping| call_requires(*scale, (lambda, damping)),
    ensures
        exists|qs: Seq<P>, lambdas: Seq<L>| #[trigger]
            refinement_trace(
                qs,
                lambdas,
                initial_guess,
                initial_lambda,
                iterations as nat,
                *solve,
                *scale,
            ) && refined == qs[iterations as int],
{
    let mut current = initial_guess;
    let mut lambda = initial_lambda;
    let mut control = Refinement::new(iterations);
    let ghost mut qs: Seq<P> = seq![current];
    let ghost mut lambdas: Seq<L> = seq![lambda];
    while control.has_budget()
        invariant
            control.wf(),
            control.max_iters() == iterations,
            qs.len() == control.outcomes().len() + 1,
            lambdas.len() == qs.len(),
            qs[0] == initial_guess,
            lambdas[0] == initial_lambda,
            qs.last() == current,
            lambdas.last() == lambda,
            forall|t: int|
                0 <= t < qs.len() - 1 ==> refines_in_one_step(
                    #[trigger] qs[t],
                    lambdas[t],
                    qs[t + 1],
                    lambdas[t + 1],
                    *solve,
                    *scale,
                ),
            forall|q: &P, lambda: &L| call_requires(*solve, (q, lambda)),
            forall|lambda: &L, damping: Damping| call_requires(*scale, (lambda, damping)),
        decreases iterations - control.outcomes().len(),
    {
        let ghost q = current;
        let ghost old_lambda = lambda;
        let ghost old_qs = qs;
        let ghost old_lambdas = lambdas;
        let trial = solve(&current, &lambda);
        let ghost reported = trial;
        let outcome = match &trial {
            Trial::Singular => StepOutcome::Singular,
            Trial::Step { position: _, decreases } => if *decreases {
                StepOutcome::Decreased
            } else {
                StepOutcome::NotDecreased
            },
        };
        let decision = control.advance(outcome);
        let next_lambda = scale(&lambda, decision.damping);
        if decision.accept {
            match trial {
                Trial::Step { position, decreases: _ } => {
                    current = position;
                },
                Trial::Singular => {},
            }
        }
        lambda = next_lambda;
        proof {
            qs = old_qs.push(current);
            lambdas = old_lambdas.push(lambda);
            assert(outcome == outcome_of(reported));
            assert(refines_in_one_step(q, old_lambda, current, lambda, *solve, *scale));
            assert forall|t: int| 0 <= t < qs.len() - 1 implies refines_in_one_step(
                #[trigger] qs[t],
                lambdas[t],
                qs[t + 1],
                lambdas[t + 1],
                *solve,
                *scale,
            ) by {
                if t < old_qs.len() - 1 {
                    assert(qs[t] == old_qs[t] && qs[t + 1] == old_qs[t + 1]);
                    assert(lambdas[t] == old_lambdas[t] && lambdas[t + 1] == old_lambdas[t + 1]);
                } else {
                    assert(qs[t] == q && lambdas[t] == old_lambda);
                }
            }
        }
    }
    proof {
        assert(refinement_trace(
            qs,
            lambdas,
            initial_guess,
            initial_lambda,
            iterations as nat,
            *solve,
            *scale,
        ));
    }
    current
}

} // verus!
