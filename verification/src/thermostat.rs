//! Thermostat plugins and their settings.

use vstd::prelude::*;

verus! {

/// Default seed of the Langevin thermostat's random force.
pub fn default_seed() -> (s: u64)
    ensures
        s == 12345,
{
    12345
}

/// Registers the Nose-Hoover NVT thermostat integration systems.
pub struct NoseHooverPlugin;

/// Langevin thermostat plugin: stochastic friction and random force.
pub struct LangevinPlugin;

} // verus!
