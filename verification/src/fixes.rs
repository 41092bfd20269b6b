//! Fix definitions (constraints and body forces applied to atom groups).

use vstd::prelude::*;

verus! {

/// `[[freeze]]`: the atoms of `group` keep zero velocity and force.
pub struct FreezeDef {
    pub group: String,
}

/// Registers the fixes read from the configuration.
pub struct FixesPlugin;

/// Applies a constant gravitational body force to all local atoms.
pub struct GravityPlugin;

} // verus!
