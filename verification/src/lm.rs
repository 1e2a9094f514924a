//! The course of a Levenberg-Marquardt run: when to linearise, how often to
//! retry with more damping, and when to stop.
//!
//! The numbers (residuals, damping, cost) belong to the caller. A run asks for
//! one thing at a time ([`Phase`]), is told how it went ([`Event`]), and
//! answers with what becomes of the damping ([`Damping`]).

use vstd::prelude::*;

verus! {

/// Damped solves tried for one linearisation before the run gives up.
pub const TRIES: u32 = 8;

/// How damping grows after a rejected step.
#[derive(Debug, Clone, Copy, PartialEq, Eq, Structural)]
pub enum Growth {
    /// By a factor that doubles with each consecutive rejection and starts
    /// over at 2 when a step is accepted. Consecutive rejections mean the
    /// linearisation is badly scaled here, and doubling escapes that in a
    /// couple of retries instead of creeping. Such a run also stops once an
    /// accepted step no longer makes progress.
    Nielsen,
    /// Always threefold.
    Threefold,
}

/// What the run asks for next.
#[derive(Debug, Clone, Copy, PartialEq, Eq, Structural)]
pub enum Phase {
    /// Linearise the problem at the current estimate.
    Linearize,
    /// Solve the damped system and judge the step.
    Solve,
    /// Compare the cost with that before this iteration.
    Check,
    Done,
}

/// How it went.
#[derive(Debug, Clone, Copy, PartialEq, Eq, Structural)]
pub enum Event {
    /// Linearised; `empty` when no observation could be used.
    Linearized { empty: bool },
    /// The damped system has no solution.
    Unsolvable,
    /// The step leads to parameters that are no camera.
    BadCameras,
    /// The step was evaluated; `better` when its cost is finite and lower.
    Trial { better: bool },
    /// `converged` when the relative decrease was below the tolerance.
    Progress { converged: bool },
}

/// What becomes of the damping.
#[derive(Debug, Clone, Copy, PartialEq, Eq, Structural)]
pub enum Damping {
    Keep,
    /// A third of it, down to a floor: an accepted step drives the run toward
    /// full Gauss-Newton steps.
    Shrink,
    Times(u64),
}

/// A run in progress.
#[derive(Debug, Clone, Copy, PartialEq, Eq, Structural)]
pub struct Run {
    pub growth: Growth,
    pub max_iterations: usize,
    /// Iterations begun.
    pub iterations: usize,
    /// Rejected solves since the last linearisation.
    pub rejected: u32,
    /// The factor for the next rejection.
    pub nu: u64,
    pub phase: Phase,
}

/// Whether the event answers what the run asked for.
pub open spec fn answers(phase: Phase, event: Event) -> bool {
    match phase {
        Phase::Linearize => event is Linearized,
        Phase::Solve => event is Unsolvable || event is BadCameras || event is Trial,
        Phase::Check => event is Progress,
        Phase::Done => false,
    }
}

pub open spec fn power_of_two(n: nat) -> nat
    decreases n,
{
    if n == 0 {
        1
    } else {
        2 * power_of_two((n - 1) as nat)
    }
}

proof fn lemma_power_of_two(a: nat, b: nat)
    requires
        a <= b,
    ensures
        1 <= power_of_two(a) <= power_of_two(b),
    decreases b,
{
    if a < b {
        lemma_power_of_two(a, (b - 1) as nat);
    } else if a > 0 {
        lemma_power_of_two((a - 1) as nat, (b - 1) as nat);
    }
}

impl Run {
    pub open spec fn wf(&self) -> bool {
        &&& self.iterations <= self.max_iterations
        &&& self.phase != Phase::Done ==> self.iterations > 0
        &&& self.phase == Phase::Solve ==> self.rejected < TRIES
        &&& 2 <= self.nu
        &&& self.rejected <= TRIES
        &&& self.nu <= power_of_two(1 + self.rejected as nat)
        &&& self.phase == Phase::Linearize || self.phase == Phase::Check ==> self.nu == 2
            && self.rejected == 0
    }

    /// A new iteration, if one is left.
    pub open spec fn continued(self) -> Run {
        if self.iterations < self.max_iterations {
            Run {
                iterations: (self.iterations + 1) as usize,
                phase: Phase::Linearize,
                rejected: 0,
                ..self
            }
        } else {
            Run { phase: Phase::Done, rejected: 0, ..self }
        }
    }

    /// One more rejection.
    pub open spec fn refused(self, nu: u64) -> Run {
        Run {
            rejected: (self.rejected + 1) as u32,
            nu,
            phase: if self.rejected + 1 < TRIES {
                Phase::Solve
            } else {
                Phase::Done
            },
            ..self
        }
    }

    /// The run after an event, and what becomes of the damping.
    pub open spec fn after(self, event: Event) -> (Run, Damping) {
        match event {
            Event::Linearized { empty } => if empty {
                (Run { phase: Phase::Done, ..self }, Damping::Keep)
            } else {
                (Run { phase: Phase::Solve, rejected: 0, ..self }, Damping::Keep)
            },
            Event::BadCameras => (self.refused(self.nu), Damping::Times(3)),
            Event::Trial { better: true } => {
                let accepted = Run { nu: 2, ..self };
                if self.growth == Growth::Nielsen {
                    (Run { phase: Phase::Check, rejected: 0, ..accepted }, Damping::Shrink)
                } else {
                    (accepted.continued(), Damping::Shrink)
                }
            },
            Event::Unsolvable | Event::Trial { better: false } => match self.growth {
                Growth::Nielsen => (
                    self.refused((self.nu * 2) as u64),
                    Damping::Times(self.nu),
                ),
                Growth::Threefold => (self.refused(self.nu), Damping::Times(3)),
            },
            Event::Progress { converged } => if converged {
                (Run { phase: Phase::Done, ..self }, Damping::Keep)
            } else {
                (self.continued(), Damping::Keep)
            },
        }
    }

    /// Begins a run. With no unknowns or no iterations it is over at once.
    pub fn start(max_iterations: usize, growth: Growth, unknowns: usize) -> (r: Run)
        ensures
            r.wf(),
            r == if unknowns == 0 || max_iterations == 0 {
                (Run {
                    growth,
                    max_iterations,
                    iterations: 0,
                    rejected: 0,
                    nu: 2,
                    phase: Phase::Done,
                })
            } else {
                (Run {
                    growth,
                    max_iterations,
                    iterations: 1,
                    rejected: 0,
                    nu: 2,
                    phase: Phase::Linearize,
                })
            },
    {
        assert(power_of_two(1) == 2) by {
            reveal_with_fuel(power_of_two, 2);
        }
        if unknowns == 0 || max_iterations == 0 {
            Run { growth, max_iterations, iterations: 0, rejected: 0, nu: 2, phase: Phase::Done }
        } else {
            Run {
                growth,
                max_iterations,
                iterations: 1,
                rejected: 0,
                nu: 2,
                phase: Phase::Linearize,
            }
        }
    }

    fn next_iteration(&mut self)
        ensures
            *final(self) == old(self).continued(),
    {
        self.rejected = 0;
        if self.iterations < self.max_iterations {
            self.iterations += 1;
            self.phase = Phase::Linearize;
        } else {
            self.phase = Phase::Done;
        }
    }

    fn refuse(&mut self)
        requires
            old(self).rejected < TRIES,
        ensures
            *final(self) == old(self).refused(old(self).nu),
    {
        self.rejected += 1;
        self.phase = if self.rejected < TRIES {
            Phase::Solve
        } else {
            Phase::Done
        };
    }

    /// Takes what the caller reports and says what becomes of the damping.
    pub fn step(&mut self, event: Event) -> (d: Damping)
        requires
            old(self).wf(),
            answers(old(self).phase, event),
        ensures
            final(self).wf(),
            (*final(self), d) == old(self).after(event),
    {
        proof {
            lemma_power_of_two(1 + self.rejected as nat, 9);
            reveal_with_fuel(power_of_two, 10);
        }
        match event {
            Event::Linearized { empty } => {
                if empty {
                    self.phase = Phase::Done;
                } else {
                    self.phase = Phase::Solve;
                    self.rejected = 0;
                }
                Damping::Keep
            },
            Event::BadCameras => {
                self.refuse();
                Damping::Times(3)
            },
            Event::Unsolvable => self.grow(),
            Event::Trial { better } => {
                if !better {
                    return self.grow();
                }
                self.nu = 2;
                self.rejected = 0;
                if self.growth == Growth::Nielsen {
                    self.phase = Phase::Check;
                } else {
                    self.next_iteration();
                }
                Damping::Shrink
            },
            Event::Progress { converged } => {
                if converged {
                    self.phase = Phase::Done;
                } else {
                    self.next_iteration();
                }
                Damping::Keep
            },
        }
    }

    /// More damping after a rejected or impossible step.
    fn grow(&mut self) -> (d: Damping)
        requires
            old(self).wf(),
            old(self).phase == Phase::Solve,
        ensures
            final(self).wf(),
            (*final(self), d) == old(self).after(Event::Unsolvable),
    {
        let nu: u64 = self.nu;
        proof {
            lemma_power_of_two(1 + self.rejected as nat, 9);
            reveal_with_fuel(power_of_two, 10);
            assert(power_of_two(2 + self.rejected as nat) == 2 * power_of_two(
                1 + self.rejected as nat,
            ));
        }
        if self.growth == Growth::Nielsen {
            self.nu = nu * 2;
            self.refuse();
            Damping::Times(nu)
        } else {
            self.refuse();
            Damping::Times(3)
        }
    }
}

/// How many more events a run can take.
pub open spec fn events_left(r: Run) -> nat {
    let per = TRIES as nat + 2;
    let later = (r.max_iterations - r.iterations) as nat * per;
    match r.phase {
        Phase::Done => 0,
        Phase::Linearize => later + per,
        Phase::Solve => later + 1 + (TRIES - r.rejected) as nat,
        Phase::Check => later + 1,
    }
}

/// Every event brings a run closer to its end, so it takes at most ten events
/// per iteration and never begins more iterations than allowed.
pub proof fn runs_end(r: Run, event: Event)
    requires
        r.wf(),
        answers(r.phase, event),
    ensures
        events_left(r.after(event).0) < events_left(r),
        events_left(r) <= r.max_iterations * (TRIES + 2),
        r.after(event).0.iterations <= r.max_iterations,
        r.after(event).0.max_iterations == r.max_iterations,
{
    let per = TRIES as nat + 2;
    let a = (r.max_iterations - r.iterations) as nat;
    assert(a > 0 ==> (a - 1) * per + per == a * per) by (nonlinear_arith);
    assert((a + 1) * per == a * per + per) by (nonlinear_arith);
    assert((a + 1) * per <= r.max_iterations * per) by (nonlinear_arith)
        requires
            a + 1 <= r.max_iterations,
    ;
}

/// The estimate only ever changes for a better one, and damping shrinks
/// exactly then.
pub proof fn only_better_steps_are_taken(r: Run, event: Event)
    requires
        r.wf(),
        answers(r.phase, event),
    ensures
        r.after(event).1 == Damping::Shrink <==> event == (Event::Trial { better: true }),
{
}

/// A rejected step raises the damping: threefold, or with Nielsen's rule by a
/// factor that doubles with each rejection in a row. A step to bad cameras
/// raises it threefold either way.
pub proof fn rejections_raise_the_damping(r: Run, event: Event)
    requires
        r.wf(),
        answers(r.phase, event),
        r.phase == Phase::Solve,
        event != (Event::Trial { better: true }),
    ensures
        event is BadCameras || r.growth == Growth::Threefold ==> r.after(event).1 == Damping::Times(
            3,
        ) && r.after(event).0.nu == r.nu,
        !(event is BadCameras) && r.growth == Growth::Nielsen ==> r.after(event).1
            == Damping::Times(r.nu) && r.after(event).0.nu == 2 * r.nu,
        r.after(event).0.rejected == r.rejected + 1,
        r.after(event).0.phase == Phase::Done <==> r.rejected + 1 == TRIES,
        r.after(event).0.iterations == r.iterations,
        r.after(event).0.phase == Phase::Done || r.after(event).0.phase == Phase::Solve,
{
    lemma_power_bound(r);
}

proof fn lemma_power_bound(r: Run)
    requires
        r.wf(),
        r.phase == Phase::Solve,
    ensures
        2 * r.nu <= u64::MAX,
{
    lemma_power_monotone(1 + r.rejected as nat, 1 + TRIES as nat);
    reveal_with_fuel(power_of_two, 20);
    assert(power_of_two(1 + TRIES as nat) <= 0x1_0000);
}

proof fn lemma_power_monotone(a: nat, b: nat)
    requires
        a <= b,
    ensures
        power_of_two(a) <= power_of_two(b),
    decreases b,
{
    if a < b {
        lemma_power_monotone(a, (b - 1) as nat);
    }
}

/// A better step starts the count of rejections anew. With Nielsen's rule its
/// progress is looked at before another iteration begins.
pub proof fn better_steps_start_anew(r: Run)
    requires
        r.wf(),
        r.phase == Phase::Solve,
    ensures
        ({
            let (next, damping) = r.after(Event::Trial { better: true });
            &&& damping == Damping::Shrink
            &&& next.nu == 2 && next.rejected == 0
            &&& r.growth == Growth::Nielsen ==> next.phase == Phase::Check && next.iterations
                == r.iterations
            &&& r.growth != Growth::Nielsen && r.iterations < r.max_iterations ==> next.phase
                == Phase::Linearize && next.iterations == r.iterations + 1
            &&& r.growth != Growth::Nielsen && r.iterations == r.max_iterations ==> next.phase
                == Phase::Done
        }),
{
}

/// A run that has converged is over, and so is one with nothing to solve; any
/// other goes on while it has iterations left.
pub proof fn runs_go_on_until_they_converge(r: Run, s: Run, flag: bool)
    requires
        r.wf(),
        r.phase == Phase::Check,
        s.wf(),
        s.phase == Phase::Linearize,
    ensures
        ({
            let next = r.after(Event::Progress { converged: flag }).0;
            &&& flag || r.iterations == r.max_iterations <==> next.phase == Phase::Done
            &&& next.phase != Phase::Done ==> next.phase == Phase::Linearize && next.iterations
                == r.iterations + 1
        }),
        ({
            let next = s.after(Event::Linearized { empty: flag }).0;
            &&& flag ==> next.phase == Phase::Done
            &&& !flag ==> next.phase == Phase::Solve
            &&& next.iterations == s.iterations
        }),
{
}

} // verus!
