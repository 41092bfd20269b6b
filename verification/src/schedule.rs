//! Velocity-Verlet schedule phases and the checks made on a schedule's phases.

use vstd::prelude::*;

verus! {

/// Execution phase within each timestep (the run loop), in execution order.
#[derive(Debug, Clone, Copy, PartialEq, Eq, Structural)]
pub enum ScheduleSet {
    Setup,
    PreInitialIntegration,
    InitialIntegration,
    PostInitialIntegration,
    PreExchange,
    Exchange,
    PreNeighbor,
    Neighbor,
    PreForce,
    Force,
    PostForce,
    PreFinalIntegration,
    FinalIntegration,
    PostFinalIntegration,
}

/// Position of a phase in the run loop.
pub open spec fn set_index(s: ScheduleSet) -> int {
    match s {
        ScheduleSet::Setup => 0,
        ScheduleSet::PreInitialIntegration => 1,
        ScheduleSet::InitialIntegration => 2,
        ScheduleSet::PostInitialIntegration => 3,
        ScheduleSet::PreExchange => 4,
        ScheduleSet::Exchange => 5,
        ScheduleSet::PreNeighbor => 6,
        ScheduleSet::Neighbor => 7,
        ScheduleSet::PreForce => 8,
        ScheduleSet::Force => 9,
        ScheduleSet::PostForce => 10,
        ScheduleSet::PreFinalIntegration => 11,
        ScheduleSet::FinalIntegration => 12,
        ScheduleSet::PostFinalIntegration => 13,
    }
}

/// Numeric position of a run-loop phase (0 = `Setup` … 13 = `PostFinalIntegration`).
pub fn set_to_value(schedule_set: &ScheduleSet) -> (v: u32)
    ensures
        v == set_index(*schedule_set),
        v < 14,
{
    match schedule_set {
        ScheduleSet::Setup => 0,
        ScheduleSet::PreInitialIntegration => 1,
        ScheduleSet::InitialIntegration => 2,
        ScheduleSet::PostInitialIntegration => 3,
        ScheduleSet::PreExchange => 4,
        ScheduleSet::Exchange => 5,
        ScheduleSet::PreNeighbor => 6,
        ScheduleSet::Neighbor => 7,
        ScheduleSet::PreForce => 8,
        ScheduleSet::Force => 9,
        ScheduleSet::PostForce => 10,
        ScheduleSet::PreFinalIntegration => 11,
        ScheduleSet::FinalIntegration => 12,
        ScheduleSet::PostFinalIntegration => 13,
    }
}

/// Execution phase during one-time setup (before the run loop begins).
#[derive(Debug, Clone, Copy, PartialEq, Eq, Structural)]
pub enum ScheduleSetupSet {
    PreSetup,
    Setup,
    PostSetup,
}

/// Position of a setup phase (`PreSetup` → `Setup` → `PostSetup`).
pub open spec fn setup_index(s: ScheduleSetupSet) -> int {
    match s {
        ScheduleSetupSet::PreSetup => 0,
        ScheduleSetupSet::Setup => 1,
        ScheduleSetupSet::PostSetup => 2,
    }
}

/// Numeric position of a setup phase (0 = `PreSetup`, 1 = `Setup`, 2 = `PostSetup`).
pub fn setup_set_to_value(schedule_set: &ScheduleSetupSet) -> (v: u32)
    ensures
        v == setup_index(*schedule_set),
        v < 3,
{
    match schedule_set {
        ScheduleSetupSet::PreSetup => 0,
        ScheduleSetupSet::Setup => 1,
        ScheduleSetupSet::PostSetup => 2,
    }
}

/// Display name of a run-loop phase.
pub open spec fn set_name_text(s: ScheduleSet) -> Seq<char> {
    match s {
        ScheduleSet::Setup => "Setup"@,
        ScheduleSet::PreInitialIntegration => "PreInitialIntegration"@,
        ScheduleSet::InitialIntegration => "InitialIntegration"@,
        ScheduleSet::PostInitialIntegration => "PostInitialIntegration"@,
        ScheduleSet::PreExchange => "PreExchange"@,
        ScheduleSet::Exchange => "Exchange"@,
        ScheduleSet::PreNeighbor => "PreNeighbor"@,
        ScheduleSet::Neighbor => "Neighbor"@,
        ScheduleSet::PreForce => "PreForce"@,
        ScheduleSet::Force => "Force"@,
        ScheduleSet::PostForce => "PostForce"@,
        ScheduleSet::PreFinalIntegration => "PreFinalIntegration"@,
        ScheduleSet::FinalIntegration => "FinalIntegration"@,
        ScheduleSet::PostFinalIntegration => "PostFinalIntegration"@,
    }
}

/// Display name of a setup phase.
pub open spec fn setup_name_text(s: ScheduleSetupSet) -> Seq<char> {
    match s {
        ScheduleSetupSet::PreSetup => "PreSetup"@,
        ScheduleSetupSet::Setup => "Setup"@,
        ScheduleSetupSet::PostSetup => "PostSetup"@,
    }
}

impl ScheduleSet {
    /// Position of the phase in the run loop (same as [`set_to_value`]).
    pub fn to_index(&self) -> (v: u32)
        ensures
            v == set_index(*self),
    {
        set_to_value(self)
    }

    /// Display name of the phase, e.g. `"InitialIntegration"`.
    pub fn name(&self) -> (n: &'static str)
        ensures
            n@ == set_name_text(*self),
    {
        match self {
            ScheduleSet::Setup => "Setup",
            ScheduleSet::PreInitialIntegration => "PreInitialIntegration",
            ScheduleSet::InitialIntegration => "InitialIntegration",
            ScheduleSet::PostInitialIntegration => "PostInitialIntegration",
            ScheduleSet::PreExchange => "PreExchange",
            ScheduleSet::Exchange => "Exchange",
            ScheduleSet::PreNeighbor => "PreNeighbor",
            ScheduleSet::Neighbor => "Neighbor",
            ScheduleSet::PreForce => "PreForce",
            ScheduleSet::Force => "Force",
            ScheduleSet::PostForce => "PostForce",
            ScheduleSet::PreFinalIntegration => "PreFinalIntegration",
            ScheduleSet::FinalIntegration => "FinalIntegration",
            ScheduleSet::PostFinalIntegration => "PostFinalIntegration",
        }
    }
}

impl ScheduleSetupSet {
    /// Position of the setup phase (same as [`setup_set_to_value`]).
    pub fn to_index(&self) -> (v: u32)
        ensures
            v == setup_index(*self),
    {
        setup_set_to_value(self)
    }

    /// Display name of the setup phase, e.g. `"PostSetup"`.
    pub fn name(&self) -> (n: &'static str)
        ensures
            n@ == setup_name_text(*self),
    {
        match self {
            ScheduleSetupSet::PreSetup => "PreSetup",
            ScheduleSetupSet::Setup => "Setup",
            ScheduleSetupSet::PostSetup => "PostSetup",
        }
    }
}

// ── Text comparison ─────────────────────────────────────────────────────────

/// Whether two strings hold the same characters.
pub fn same_text(a: &str, b: &str) -> (r: bool)
    ensures
        r == (a@ == b@),
{
    let n = a.unicode_len();
    if n != b.unicode_len() {
        return false;
    }
    let mut i: usize = 0;
    while i < n
        invariant
            n == a@.len(),
            n == b@.len(),
            i <= n,
            forall|j: int| 0 <= j < i ==> a@[j] == b@[j],
        decreases n - i,
    {
        if a.get_char(i) != b.get_char(i) {
            return false;
        }
        i = i + 1;
    }
    proof {
        assert(a@ =~= b@);
    }
    true
}

// ── Verlet schedule warnings ────────────────────────────────────────────────

/// `name` is the name of one of the standard run-loop phases.
pub open spec fn is_standard_phase_name(name: Seq<char>) -> bool {
    exists|s: ScheduleSet| #[trigger] set_name_text(s) == name
}

/// Some entry of `names` equals `name`.
pub open spec fn names_contain(names: Seq<&str>, name: Seq<char>) -> bool {
    exists|i: int| 0 <= i < names.len() && (#[trigger] names[i])@ == name
}

/// Number of distinct names other than `"Setup"` among the first `m` entries of `names`.
pub open spec fn distinct_update_phases(names: Seq<&str>, m: int) -> nat
    decreases m,
{
    if m <= 0 {
        0
    } else {
        distinct_update_phases(names, m - 1) + (if names[m - 1]@ != "Setup"@ && !names_contain(
            names.take(m - 1),
            names[m - 1]@,
        ) {
            1nat
        } else {
            0nat
        })
    }
}

pub open spec fn verlet_no_force_text() -> Seq<char> {
    "[Schedule Warning] No systems registered in the Force schedule set. Forces will not be computed. Did you forget a force plugin?"@
}

pub open spec fn verlet_initial_only_text() -> Seq<char> {
    "[Schedule Warning] InitialIntegration has systems but FinalIntegration is empty. This produces an asymmetric Verlet integration."@
}

pub open spec fn verlet_final_only_text() -> Seq<char> {
    "[Schedule Warning] FinalIntegration has systems but InitialIntegration is empty. This produces an asymmetric Verlet integration."@
}

pub open spec fn verlet_no_integrator_text() -> Seq<char> {
    "[Schedule Warning] Schedule has update systems but no integrator (neither InitialIntegration nor FinalIntegration has systems). Particles will not move."@
}

/// The warnings raised for a schedule whose non-empty phases are named `names`:
/// nothing for a schedule that uses no standard phase name; otherwise, in this
/// order, a missing `Force` phase, a one-sided Verlet integration, and the
/// absence of any integration phase among more than two update phases.
pub open spec fn verlet_warnings(names: Seq<&str>) -> Seq<Seq<char>> {
    if !(exists|i: int| 0 <= i < names.len() && is_standard_phase_name(#[trigger] names[i]@)) {
        Seq::empty()
    } else {
        let count = distinct_update_phases(names, names.len() as int);
        let has_initial = names_contain(names, "InitialIntegration"@) || names_contain(names, "PreInitialIntegration"@);
        let has_final = names_contain(names, "FinalIntegration"@) || names_contain(names, "PostFinalIntegration"@);
        let w1: Seq<Seq<char>> = if count > 0 && !names_contain(names, "Force"@) {
            seq![verlet_no_force_text()]
        } else {
            Seq::empty()
        };
        let w2: Seq<Seq<char>> = if has_initial && !has_final {
            seq![verlet_initial_only_text()]
        } else if !has_initial && has_final {
            seq![verlet_final_only_text()]
        } else {
            Seq::empty()
        };
        let w3: Seq<Seq<char>> = if count > 2 && !has_initial && !has_final {
            seq![verlet_no_integrator_text()]
        } else {
            Seq::empty()
        };
        w1 + w2 + w3
    }
}

/// The texts of the strings in `v`.
pub open spec fn texts(v: Seq<String>) -> Seq<Seq<char>> {
    v.map_values(|s: String| s@)
}

/// Whether one of the first `upto` entries of `names` equals `name`.
fn contains_name_before(names: &[&str], upto: usize, name: &str) -> (r: bool)
    requires
        upto <= names@.len(),
    ensures
        r == names_contain(names@.take(upto as int), name@),
{
    let mut i: usize = 0;
    while i < upto
        invariant
            upto <= names@.len(),
            i <= upto,
            forall|j: int| 0 <= j < i ==> (#[trigger] names@[j])@ != name@,
        decreases upto - i,
    {
        if same_text(names[i], name) {
            proof {
                assert(names@.take(upto as int)[i as int] == names@[i as int]);
            }
            return true;
        }
        i = i + 1;
    }
    false
}

/// Whether some entry of `names` equals `name`.
fn contains_name(names: &[&str], name: &str) -> (r: bool)
    ensures
        r == names_contain(names@, name@),
{
    let r = contains_name_before(names, names.len(), name);
    proof {
        assert(names@.take(names@.len() as int) =~= names@);
    }
    r
}

/// The run-loop phase at position `i`.
pub fn set_from_index(i: u32) -> (s: ScheduleSet)
    requires
        i < 14,
    ensures
        set_index(s) == i,
{
    match i {
        0 => ScheduleSet::Setup,
        1 => ScheduleSet::PreInitialIntegration,
        2 => ScheduleSet::InitialIntegration,
        3 => ScheduleSet::PostInitialIntegration,
        4 => ScheduleSet::PreExchange,
        5 => ScheduleSet::Exchange,
        6 => ScheduleSet::PreNeighbor,
        7 => ScheduleSet::Neighbor,
        8 => ScheduleSet::PreForce,
        9 => ScheduleSet::Force,
        10 => ScheduleSet::PostForce,
        11 => ScheduleSet::PreFinalIntegration,
        12 => ScheduleSet::FinalIntegration,
        _ => ScheduleSet::PostFinalIntegration,
    }
}

/// Whether `name` is the name of a standard run-loop phase.
fn is_standard_name(name: &str) -> (r: bool)
    ensures
        r == is_standard_phase_name(name@),
{
    let mut i: u32 = 0;
    while i < 14
        invariant
            i <= 14,
            forall|s: ScheduleSet| set_index(s) < i ==> #[trigger] set_name_text(s) != name@,
        decreases 14 - i,
    {
        let set = set_from_index(i);
        if same_text(set.name(), name) {
            return true;
        }
        proof {
            assert forall|s: ScheduleSet| set_index(s) < i + 1 implies #[trigger] set_name_text(s) != name@ by {
                if set_index(s) == i {
                    assert(s == set);
                }
            }
        }
        i = i + 1;
    }
    proof {
        assert forall|s: ScheduleSet| #[trigger] set_name_text(s) != name@ by {
            assert(set_index(s) < 14);
        }
    }
    false
}

/// Verlet-specific warnings for a schedule whose non-empty phases are named
/// `phase_names` (custom schedules that use no standard phase name get none).
pub fn verlet_schedule_warnings(phase_names: &[&str]) -> (warnings: Vec<String>)
    ensures
        texts(warnings@) == verlet_warnings(phase_names@),
{
    let mut warnings: Vec<String> = Vec::new();
    let names = phase_names;
    let mut standard = false;
    let mut i: usize = 0;
    while i < names.len()
        invariant
            i <= names@.len(),
            standard == exists|j: int| 0 <= j < i && is_standard_phase_name(#[trigger] names@[j]@),
        decreases names@.len() - i,
    {
        if is_standard_name(names[i]) {
            standard = true;
        }
        i = i + 1;
    }
    if !standard {
        proof {
            assert(texts(warnings@) =~= verlet_warnings(phase_names@));
        }
        return warnings;
    }
    let mut count: usize = 0;
    let mut i: usize = 0;
    while i < names.len()
        invariant
            i <= names@.len(),
            count == distinct_update_phases(names@, i as int),
            count <= i,
        decreases names@.len() - i,
    {
        if !same_text(names[i], "Setup") && !contains_name_before(names, i, names[i]) {
            count = count + 1;
        }
        i = i + 1;
    }
    let has_force = contains_name(names, "Force");
    let has_initial = contains_name(names, "InitialIntegration") || contains_name(names, "PreInitialIntegration");
    let has_final = contains_name(names, "FinalIntegration") || contains_name(names, "PostFinalIntegration");
    if count > 0 && !has_force {
        warnings.push(
            "[Schedule Warning] No systems registered in the Force schedule set. Forces will not be computed. Did you forget a force plugin?".to_owned(),
        );
    }
    if has_initial && !has_final {
        warnings.push(
            "[Schedule Warning] InitialIntegration has systems but FinalIntegration is empty. This produces an asymmetric Verlet integration.".to_owned(),
        );
    } else if !has_initial && has_final {
        warnings.push(
            "[Schedule Warning] FinalIntegration has systems but InitialIntegration is empty. This produces an asymmetric Verlet integration.".to_owned(),
        );
    }
    if count > 2 && !has_initial && !has_final {
        warnings.push(
            "[Schedule Warning] Schedule has update systems but no integrator (neither InitialIntegration nor FinalIntegration has systems). Particles will not move.".to_owned(),
        );
    }
    proof {
        assert(texts(warnings@) =~= verlet_warnings(phase_names@));
    }
    warnings
}

} // verus!
