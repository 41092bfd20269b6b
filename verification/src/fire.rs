//! The FIRE energy minimizer plugin and its settings.

use vstd::prelude::*;

verus! {

/// Default number of steps after a downhill restart before the timestep may grow.
pub fn default_n_delay() -> (n: usize)
    ensures
        n == 5,
{
    5
}

/// Default of `stop_on_converge`: end the stage once the minimizer converged.
pub fn default_true() -> (b: bool)
    ensures
        b,
{
    true
}

/// FIRE minimizer plugin. With `stage` set, its systems run only during the
/// run stage of that name; otherwise in every stage (replacing Verlet).
pub struct FireMinPlugin {
    pub stage: Option<String>,
}

impl FireMinPlugin {
    /// A plugin that runs in all stages.
    pub fn new() -> (p: Self)
        ensures
            p.stage is None,
    {
        FireMinPlugin { stage: None }
    }

    /// A plugin that runs only during the stage named `name`.
    pub fn for_stage(name: &str) -> (p: Self)
        ensures
            p.stage matches Some(s) && s@ == name@,
    {
        FireMinPlugin { stage: Some(name.to_owned()) }
    }
}


/// Counters of the FIRE minimizer.
#[derive(Debug, Clone, Copy, PartialEq, Eq, Structural)]
pub struct FireCounters {
    /// Consecutive steps with positive power `P = F · V`.
    pub steps_since_negative: usize,
    /// Completed minimizer iterations.
    pub iteration: usize,
    /// The largest force dropped below the tolerance.
    pub converged: bool,
}

/// What the minimizer does at the end of a step.
#[derive(Debug, Clone, Copy, PartialEq, Eq, Structural)]
pub enum FireAction {
    /// Converged earlier: nothing to do.
    Idle,
    /// Converged now: stop integrating.
    Converge,
    /// Moving downhill: keep going; with `grow`, enlarge the timestep and decay α.
    Downhill { grow: bool },
    /// Moving uphill: shrink the timestep, reset α and zero the velocities.
    Uphill,
}

/// The FIRE state machine at the end of a step, given whether the largest
/// per-atom force is below the tolerance and whether the power is positive.
/// On convergence with `stop_on_converge` the stage is asked to end.
pub fn fire_step(
    c: &mut FireCounters,
    advance_requested: &mut bool,
    force_below_tol: bool,
    power_positive: bool,
    n_delay: usize,
    stop_on_converge: bool,
) -> (a: FireAction)
    requires
        old(c).iteration < usize::MAX,
        old(c).steps_since_negative < usize::MAX,
    ensures
        old(c).converged ==> a == FireAction::Idle && *final(c) == *old(c) && *final(advance_requested) == *old(advance_requested),
        !old(c).converged ==> final(c).iteration == old(c).iteration + 1,
        !old(c).converged && force_below_tol ==> {
            &&& a == FireAction::Converge
            &&& final(c).converged
            &&& final(c).steps_since_negative == old(c).steps_since_negative
            &&& *final(advance_requested) == (*old(advance_requested) || stop_on_converge)
        },
        !old(c).converged && !force_below_tol ==> {
            &&& !final(c).converged
            &&& *final(advance_requested) == *old(advance_requested)
            &&& power_positive ==> final(c).steps_since_negative == old(c).steps_since_negative + 1 && a == (FireAction::Downhill {
                grow: old(c).steps_since_negative + 1 > n_delay,
            })
            &&& !power_positive ==> final(c).steps_since_negative == 0 && a == FireAction::Uphill
        },
{
    if c.converged {
        return FireAction::Idle;
    }
    c.iteration = c.iteration + 1;
    if force_below_tol {
        c.converged = true;
        if stop_on_converge {
            *advance_requested = true;
        }
        return FireAction::Converge;
    }
    if power_positive {
        c.steps_since_negative = c.steps_since_negative + 1;
        FireAction::Downhill { grow: c.steps_since_negative > n_delay }
    } else {
        c.steps_since_negative = 0;
        FireAction::Uphill
    }
}

} // verus!
