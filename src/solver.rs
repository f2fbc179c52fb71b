use vstd::prelude::*;

verus! {

/// The solver chosen for a problem.
#[derive(Clone, Copy, Debug, PartialEq, Eq, Structural)]
pub enum SolverChoice {
    /// Adaptive gradient descent with line search.
    Newton,
    /// Particle swarm with this many particles.
    Pso { population: usize },
    /// Simplified CMA-ES.
    CmaEs,
}

/// The selection rule, over the number of parameters, whether the mean bound range is
/// below 0.1, and whether the ranges' coefficient of variation exceeds 1.5.
pub open spec fn select_spec(n: usize, tiny_ranges: bool, widely_spread: bool) -> SolverChoice {
    if n <= 2 && tiny_ranges {
        SolverChoice::Newton
    } else if n <= 8 {
        SolverChoice::Pso { population: if 10 + 3 * n <= 30 { (10 + 3 * n) as usize } else { 30 } }
    } else if n >= 9 || widely_spread {
        SolverChoice::CmaEs
    } else {
        SolverChoice::Pso { population: 20 }
    }
}

/// Picks a solver from the shape of the problem: `n` parameters, whether the mean bound
/// range is below 0.1 (`tiny_ranges`), and whether the coefficient of variation of the
/// ranges exceeds 1.5 (`widely_spread`).
pub fn select_solver(n: usize, tiny_ranges: bool, widely_spread: bool) -> (r: SolverChoice)
    ensures
        r == select_spec(n, tiny_ranges, widely_spread),
{
    if n <= 2 && tiny_ranges {
        SolverChoice::Newton
    } else if n <= 8 {
        let p = 10 + 3 * n;
        SolverChoice::Pso { population: if p <= 30 { p } else { 30 } }
    } else if n >= 9 || widely_spread {
        SolverChoice::CmaEs
    } else {
        SolverChoice::Pso { population: 20 }
    }
}

/// Why a solver returned.
#[derive(Clone, Copy, Debug, PartialEq, Eq, Structural)]
pub enum Outcome {
    StoppedByCallback,
    Converged,
    Stagnated,
    MaxIterations,
    Interrupted,
}

impl Outcome {
    /// Whether the run counts as a success.
    pub open spec fn succeeded(self) -> bool {
        self == Outcome::StoppedByCallback || self == Outcome::Converged
    }

    pub fn success(self) -> (r: bool)
        ensures
            r == self.succeeded(),
    {
        match self {
            Outcome::StoppedByCallback => true,
            Outcome::Converged => true,
            _ => false,
        }
    }

    pub open spec fn message_spec(self) -> Seq<char> {
        match self {
            Outcome::StoppedByCallback => "Stopped by callback"@,
            Outcome::Converged => "Converged"@,
            Outcome::Stagnated => "Stagnated"@,
            Outcome::MaxIterations => "Max iterations reached"@,
            Outcome::Interrupted => "Interrupted"@,
        }
    }

    /// The message a result carries.
    pub fn message(self) -> (r: String)
        ensures
            r@ == self.message_spec(),
    {
        let s = match self {
            Outcome::StoppedByCallback => "Stopped by callback",
            Outcome::Converged => "Converged",
            Outcome::Stagnated => "Stagnated",
            Outcome::MaxIterations => "Max iterations reached",
            Outcome::Interrupted => "Interrupted",
        };
        crate::text::string_of(crate::text::chars_of(s).as_slice())
    }
}

/// The end of an iteration: the callback's stop request comes first, then
/// convergence (`cost < precision`), then stagnation; otherwise the run goes on.
pub open spec fn iteration_end_spec(stop_requested: bool, converged: bool, stagnated: bool) -> Option<
    Outcome,
> {
    if stop_requested {
        Some(Outcome::StoppedByCallback)
    } else if converged {
        Some(Outcome::Converged)
    } else if stagnated {
        Some(Outcome::Stagnated)
    } else {
        None
    }
}

/// Decides whether a solver returns after an iteration, and why.
pub fn iteration_end(stop_requested: bool, converged: bool, stagnated: bool) -> (r: Option<Outcome>)
    ensures
        r == iteration_end_spec(stop_requested, converged, stagnated),
{
    if stop_requested {
        Some(Outcome::StoppedByCallback)
    } else if converged {
        Some(Outcome::Converged)
    } else if stagnated {
        Some(Outcome::Stagnated)
    } else {
        None
    }
}

/// Consecutive iterations with too small a change that make a swarm stagnate.
pub const MAX_STAGNATION: u32 = 5;

/// A run of consecutive events, and the length at which it triggers.
#[derive(Clone, Copy, Debug, PartialEq, Eq, Structural)]
pub struct Streak {
    pub length: u32,
    pub limit: u32,
}

impl Streak {
    /// The streak that tells a particle swarm it has stagnated.
    pub fn stagnation() -> (r: Streak)
        ensures
            r.length == 0 && r.limit == MAX_STAGNATION,
    {
        Streak { length: 0, limit: MAX_STAGNATION }
    }

    /// The streak of strict improvements after which gradient descent grows its rate.
    pub fn improvement() -> (r: Streak)
        ensures
            r.length == 0 && r.limit == 3,
    {
        Streak { length: 0, limit: 3 }
    }

    /// Records one iteration: the streak grows when `event` holds and restarts
    /// otherwise. Returns whether the streak has reached its limit.
    pub fn record(&mut self, event: bool) -> (r: bool)
        ensures
            final(self).limit == old(self).limit,
            event ==> final(self).length == (if old(self).length < u32::MAX {
                old(self).length + 1
            } else {
                old(self).length as int
            }),
            !event ==> final(self).length == 0,
            r == (event && final(self).length >= final(self).limit),
    {
        if event {
            if self.length < u32::MAX {
                self.length = self.length + 1;
            }
            self.length >= self.limit
        } else {
            self.length = 0;
            false
        }
    }
}

/// Counts the iterations a run has reported and stops it at the configured maximum.
#[derive(Clone, Copy, Debug, PartialEq, Eq, Structural)]
pub struct IterationCounter {
    pub max_iterations: u32,
    pub iteration_count: u32,
}

impl IterationCounter {
    pub fn new(max_iterations: u32) -> (r: IterationCounter)
        ensures
            r.max_iterations == max_iterations,
            r.iteration_count == 0,
    {
        IterationCounter { max_iterations, iteration_count: 0 }
    }

    /// Records that iteration `iteration` was reported.
    pub fn on_iteration(&mut self, iteration: u32)
        ensures
            final(self).iteration_count == iteration,
            final(self).max_iterations == old(self).max_iterations,
    {
        self.iteration_count = iteration;
    }

    /// The run stops once the recorded iteration reaches the maximum.
    pub fn should_stop(&self) -> (r: bool)
        ensures
            r == (self.iteration_count >= self.max_iterations),
    {
        self.iteration_count >= self.max_iterations
    }
}

} // verus!
