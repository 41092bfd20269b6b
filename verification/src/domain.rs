//! Boundary conditions of the simulation box: the per-axis boundary type and
//! how it is resolved from the `[domain]` settings.

use vstd::prelude::*;

verus! {

/// Boundary condition type for a single axis.
///
/// - `Periodic`: atoms that exit one side re-enter from the opposite side.
/// - `Fixed`: the box boundary is static; atoms leaving are removed.
/// - `ShrinkWrap`: the box boundary adjusts each step to encompass all atoms.
#[derive(Debug, Clone, Copy, PartialEq, Eq, Structural)]
pub enum BoundaryType {
    Periodic,
    Fixed,
    ShrinkWrap,
}

impl Default for BoundaryType {
    fn default() -> (b: Self)
        ensures
            b == BoundaryType::Periodic,
    {
        BoundaryType::Periodic
    }
}

/// Default of an explicit per-axis boundary setting: not set.
pub fn default_boundary() -> (b: Option<BoundaryType>)
    ensures
        b is None,
{
    None
}

/// Default of a per-axis periodic flag.
pub fn default_true() -> (b: bool)
    ensures
        b,
{
    true
}

/// The boundary type of one axis: the explicit setting when there is one,
/// otherwise periodic or fixed according to the periodic flag.
pub open spec fn resolve_spec(boundary: Option<BoundaryType>, periodic: bool) -> BoundaryType {
    match boundary {
        Some(bt) => bt,
        None => if periodic {
            BoundaryType::Periodic
        } else {
            BoundaryType::Fixed
        },
    }
}

/// The effective boundary type of one axis.
pub fn resolve_boundary(boundary: Option<BoundaryType>, periodic: bool) -> (bt: BoundaryType)
    ensures
        bt == resolve_spec(boundary, periodic),
{
    match boundary {
        Some(bt) => bt,
        None => if periodic {
            BoundaryType::Periodic
        } else {
            BoundaryType::Fixed
        },
    }
}

/// The boundary part of the `[domain]` settings: the explicit per-axis
/// boundary types and the per-axis periodic flags they override.
pub struct BoundaryConfig {
    pub boundary: [Option<BoundaryType>; 3],
    pub periodic: [bool; 3],
}

impl Default for BoundaryConfig {
    fn default() -> (c: Self)
        ensures
            forall|d: int| 0 <= d < 3 ==> c.boundary@[d] is None && c.periodic@[d],
    {
        BoundaryConfig { boundary: [None, None, None], periodic: [true, true, true] }
    }
}

impl BoundaryConfig {
    /// The effective boundary type per axis, considering both the periodic
    /// flags and the explicit boundary types.
    pub fn resolved_boundary_types(&self) -> (r: [BoundaryType; 3])
        ensures
            forall|d: int| 0 <= d < 3 ==> r@[d] == resolve_spec(self.boundary@[d], self.periodic@[d]),
    {
        let r = [
            resolve_boundary(self.boundary[0], self.periodic[0]),
            resolve_boundary(self.boundary[1], self.periodic[1]),
            resolve_boundary(self.boundary[2], self.periodic[2]),
        ];
        proof {
            assert forall|d: int| 0 <= d < 3 implies r@[d] == resolve_spec(self.boundary@[d], self.periodic@[d]) by {
                if d == 0 {
                } else if d == 1 {
                } else {
                }
            }
        }
        r
    }
}

/// Per-axis flags: which axes have the boundary type `kind`.
pub fn axes_with(types: &[BoundaryType; 3], kind: BoundaryType) -> (flags: [bool; 3])
    ensures
        forall|d: int| 0 <= d < 3 ==> flags@[d] == (types@[d] == kind),
{
    let f = [types[0] == kind, types[1] == kind, types[2] == kind];
    proof {
        assert forall|d: int| 0 <= d < 3 implies f@[d] == (types@[d] == kind) by {
            if d == 0 {
            } else if d == 1 {
            } else {
            }
        }
    }
    f
}

/// The letter of a boundary type in the box summary line ("p", "f", "s").
pub open spec fn boundary_letter(bt: BoundaryType) -> char {
    match bt {
        BoundaryType::Periodic => 'p',
        BoundaryType::Fixed => 'f',
        BoundaryType::ShrinkWrap => 's',
    }
}

/// The letter of a boundary type in the box summary line.
pub fn boundary_type_char(bt: BoundaryType) -> (c: char)
    ensures
        c == boundary_letter(bt),
{
    match bt {
        BoundaryType::Periodic => 'p',
        BoundaryType::Fixed => 'f',
        BoundaryType::ShrinkWrap => 's',
    }
}

/// Uniform Cartesian grid decomposition of the box over the processor grid.
pub struct CartesianDecomposition;

/// A coordinate axis.
#[derive(Debug, Clone, Copy, PartialEq, Eq, Structural)]
pub enum Axis {
    X,
    Y,
    Z,
}

} // verus!
