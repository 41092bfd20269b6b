//! Run stages, cycle counting and multi-stage simulation control.
//!
//! A simulation runs one or more stages; each stage runs a number of
//! timesteps (or is skipped), and the scheduler moves to the setup of the next
//! stage when a stage is done, or ends after the last one.

use vstd::prelude::*;
use crate::scheduler::{SchedulerManager, SchedulerState};
use crate::schedule::same_text;

verus! {

/// Per-stage settings: step count, thermo/dump/restart intervals.
pub struct StageConfig {
    /// Optional human-readable stage name.
    pub name: Option<String>,
    /// Number of timesteps to run in this stage.
    pub steps: u32,
    /// Print thermo output every N steps.
    pub thermo: usize,
    /// Override of the dump interval for this stage.
    pub dump_interval: Option<usize>,
    /// Override of the restart interval for this stage.
    pub restart_interval: Option<usize>,
    /// Override of the VTP interval for this stage.
    pub vtp_interval: Option<usize>,
    /// Skip this stage entirely.
    pub skip: bool,
    /// Write dump and restart files when this stage finishes.
    pub save_at_end: bool,
}

impl Default for StageConfig {
    fn default() -> (c: Self)
        ensures
            c.name is None,
            c.steps == 1000,
            c.thermo == 100,
            c.dump_interval is None,
            c.restart_interval is None,
            c.vtp_interval is None,
            !c.skip,
            !c.save_at_end,
    {
        StageConfig {
            name: None,
            steps: 1000,
            thermo: 100,
            dump_interval: None,
            restart_interval: None,
            vtp_interval: None,
            skip: false,
            save_at_end: false,
        }
    }
}

/// Default number of timesteps of a stage.
pub fn default_steps() -> (s: u32)
    ensures
        s == 1000,
{
    1000
}

/// Default thermo output interval.
pub fn default_thermo() -> (t: usize)
    ensures
        t == 100,
{
    100
}

/// All run stages.
pub struct RunConfig {
    pub stages: Vec<StageConfig>,
}

impl RunConfig {
    /// Config for stage `index`, clamped to the last stage when out of range.
    pub fn current_stage(&self, index: usize) -> (s: &StageConfig)
        requires
            self.stages.len() > 0,
        ensures
            *s == self.stages@[if index < self.stages.len() { index as int } else { self.stages.len() - 1 }],
    {
        let last = self.stages.len() - 1;
        if index < last {
            &self.stages[index]
        } else {
            &self.stages[last]
        }
    }

    /// Number of configured stages.
    pub fn num_stages(&self) -> (n: usize)
        ensures
            n == self.stages.len(),
    {
        self.stages.len()
    }
}

impl Default for RunConfig {
    fn default() -> (c: Self)
        ensures
            c.stages.len() == 1,
            c.stages@[0].steps == 1000,
            c.stages@[0].thermo == 100,
            !c.stages@[0].skip,
    {
        let mut stages = Vec::new();
        stages.push(StageConfig::default());
        RunConfig { stages }
    }
}

/// Cycle counters: the total number of timesteps run, and per started stage
/// the steps run so far and the steps it has to run.
pub struct RunState {
    pub total_cycle: usize,
    pub cycle_count: Vec<u32>,
    pub cycle_remaining: Vec<u32>,
}

impl RunState {
    /// Counters before any stage has started.
    pub fn new() -> (r: Self)
        ensures
            r.total_cycle == 0,
            r.cycle_count@.len() == 0,
            r.cycle_remaining@.len() == 0,
    {
        RunState { total_cycle: 0, cycle_count: Vec::new(), cycle_remaining: Vec::new() }
    }
}

impl Default for RunState {
    fn default() -> (r: Self)
        ensures
            r.total_cycle == 0,
            r.cycle_count@.len() == 0,
            r.cycle_remaining@.len() == 0,
    {
        RunState::new()
    }
}

/// What the start of a stage amounted to.
#[derive(Debug, Clone, Copy, PartialEq, Eq, Structural)]
pub enum StageStart {
    /// There is no stage with the current index.
    NoStage,
    /// The stage is marked `skip`; it runs no timestep.
    Skipped,
    /// The stage starts and will run its configured number of steps.
    Started,
}

/// Setup of a stage: opens the counters of stage `scheduler_manager.index`
/// (zero steps to run when the stage is skipped).
pub fn run_read_input(config: &RunConfig, scheduler_manager: &SchedulerManager, run_state: &mut RunState) -> (r: StageStart)
    ensures
        final(run_state).total_cycle == old(run_state).total_cycle,
        scheduler_manager.index >= config.stages.len() ==> {
            &&& r == StageStart::NoStage
            &&& final(run_state).cycle_count@ == old(run_state).cycle_count@
            &&& final(run_state).cycle_remaining@ == old(run_state).cycle_remaining@
        },
        scheduler_manager.index < config.stages.len() ==> {
            let stage = config.stages@[scheduler_manager.index as int];
            &&& r == (if stage.skip { StageStart::Skipped } else { StageStart::Started })
            &&& final(run_state).cycle_count@ == old(run_state).cycle_count@.push(0)
            &&& final(run_state).cycle_remaining@ == old(run_state).cycle_remaining@.push(
                if stage.skip { 0 } else { stage.steps },
            )
        },
{
    let index = scheduler_manager.index;
    if index >= config.num_stages() {
        return StageStart::NoStage;
    }
    let stage = config.current_stage(index);
    if stage.skip {
        run_state.cycle_count.push(0);
        run_state.cycle_remaining.push(0);
        return StageStart::Skipped;
    }
    run_state.cycle_count.push(0);
    run_state.cycle_remaining.push(stage.steps);
    StageStart::Started
}

// ── Stage-name validation ──────────────────────────────────────────────────

/// Why the configured stages do not match the expected stage names.
#[derive(Debug, Clone, PartialEq, Eq)]
pub enum StageValidationError {
    /// The number of configured stages differs from the number of expected names.
    CountMismatch { stages: usize, expected: usize },
    /// Stage `index` has a name other than the expected one.
    NameMismatch { index: usize, found: String, expected: String },
    /// Stage `index` has no name.
    MissingName { index: usize, expected: String },
}

/// Stage `stage` carries exactly the name `expected`.
pub open spec fn stage_named(stage: StageConfig, expected: Seq<char>) -> bool {
    stage.name matches Some(n) && n@ == expected
}

/// `e` is the error reported for stage `i` (configured as `stage`) whose name is not `expected`.
pub open spec fn is_stage_name_error(e: StageValidationError, stage: StageConfig, i: int, expected: Seq<char>) -> bool {
    match e {
        StageValidationError::NameMismatch { index, found, expected: ex } => {
            &&& stage.name == Some(found)
            &&& index == i
            &&& ex@ == expected
        },
        StageValidationError::MissingName { index, expected: ex } => {
            &&& stage.name is None
            &&& index == i
            &&& ex@ == expected
        },
        _ => false,
    }
}

/// Checks, at the first stage only, that the configured stages carry the
/// expected names in order: the counts must agree, and the first stage
/// without the expected name is reported.
pub fn validate_stages(run_config: &RunConfig, stage_names: &[&str], index: usize) -> (r: Result<(), StageValidationError>)
    ensures
        index != 0 ==> (r is Ok),
        index == 0 && run_config.stages.len() != stage_names@.len() ==> r == Err::<(), StageValidationError>(
            (StageValidationError::CountMismatch { stages: run_config.stages.len(), expected: stage_names@.len() as usize }),
        ),
        index == 0 && run_config.stages.len() == stage_names@.len() ==> {
            &&& ((r is Ok) <==> forall|i: int| 0 <= i < stage_names@.len() ==> stage_named(run_config.stages@[i], (#[trigger] stage_names@[i])@))
            &&& (r matches Err(e) ==> exists|i: int| {
                &&& 0 <= i < stage_names@.len()
                &&& !stage_named(run_config.stages@[i], (#[trigger] stage_names@[i])@)
                &&& is_stage_name_error(e, run_config.stages@[i], i, stage_names@[i]@)
                &&& forall|j: int| 0 <= j < i ==> stage_named(run_config.stages@[j], (#[trigger] stage_names@[j])@)
            })
        },
{
    if index != 0 {
        return Ok(());
    }
    let n = run_config.stages.len();
    if n != stage_names.len() {
        return Err(StageValidationError::CountMismatch { stages: n, expected: stage_names.len() });
    }
    let mut i: usize = 0;
    while i < n
        invariant
            index == 0,
            n == run_config.stages.len(),
            n == stage_names@.len(),
            i <= n,
            forall|j: int| 0 <= j < i ==> stage_named(run_config.stages@[j], (#[trigger] stage_names@[j])@),
        decreases n - i,
    {
        let expected = stage_names[i];
        match &run_config.stages[i].name {
            Some(name) => {
                if !same_text(name.as_str(), expected) {
                    let e = StageValidationError::NameMismatch { index: i, found: name.clone(), expected: expected.to_owned() };
                    proof {
                        assert(is_stage_name_error(e, run_config.stages@[i as int], i as int, stage_names@[i as int]@));
                    }
                    return Err(e);
                }
            },
            None => {
                let e = StageValidationError::MissingName { index: i, expected: expected.to_owned() };
                proof {
                    assert(is_stage_name_error(e, run_config.stages@[i as int], i as int, stage_names@[i as int]@));
                }
                return Err(e);
            },
        }
        i = i + 1;
    }
    Ok(())
}

// ── The per-step transition ─────────────────────────────────────────────────

/// Mathematical view of the cycle counters together with the scheduler's
/// stage index, state and early-advance flag.
pub struct RunModel {
    pub total_cycle: int,
    pub counts: Seq<int>,
    pub remaining: Seq<int>,
    pub index: int,
    pub state: SchedulerState,
    pub advance_requested: bool,
}

/// The model of `run_state` and `manager`.
pub open spec fn model_of(run_state: RunState, manager: SchedulerManager) -> RunModel {
    RunModel {
        total_cycle: run_state.total_cycle as int,
        counts: run_state.cycle_count@.map_values(|c: u32| c as int),
        remaining: run_state.cycle_remaining@.map_values(|c: u32| c as int),
        index: manager.index as int,
        state: manager.state,
        advance_requested: manager.advance_requested,
    }
}

/// Moves `m` to the setup of the next stage (or to the end after the last of `n` stages).
pub open spec fn next_stage(m: RunModel, n: int) -> RunModel {
    RunModel {
        advance_requested: false,
        index: m.index + 1,
        state: if m.index + 1 >= n { SchedulerState::End } else { SchedulerState::Setup },
        ..m
    }
}

/// End-of-timestep bookkeeping for a run of `n` stages: a skipped stage
/// (nothing to run) is left at once; otherwise the step is counted, and the
/// stage is left when it has run all its steps or an early advance was requested.
pub open spec fn cycle_step(m: RunModel, n: int) -> RunModel {
    let i = m.index;
    if m.remaining[i] == 0 {
        next_stage(m, n)
    } else {
        let counted = RunModel { counts: m.counts.update(i, m.counts[i] + 1), total_cycle: m.total_cycle + 1, ..m };
        if counted.counts[i] == m.remaining[i] || m.advance_requested {
            next_stage(counted, n)
        } else {
            counted
        }
    }
}

/// End-of-timestep bookkeeping (see [`cycle_step`]).
pub fn update_cycle(run_state: &mut RunState, scheduler_manager: &mut SchedulerManager, run_config: &RunConfig)
    requires
        old(scheduler_manager).index < old(run_state).cycle_remaining.len(),
        old(scheduler_manager).index < old(run_state).cycle_count.len(),
        old(scheduler_manager).index < usize::MAX,
        old(run_state).cycle_remaining@[old(scheduler_manager).index as int] != 0 ==> {
            &&& old(run_state).cycle_count@[old(scheduler_manager).index as int] < u32::MAX
            &&& old(run_state).total_cycle < usize::MAX
        },
    ensures
        model_of(*final(run_state), *final(scheduler_manager)) == cycle_step(
            model_of(*old(run_state), *old(scheduler_manager)),
            run_config.stages.len() as int,
        ),
        final(run_state).cycle_count.len() == old(run_state).cycle_count.len(),
        final(run_state).cycle_remaining@ == old(run_state).cycle_remaining@,
        final(scheduler_manager).stage_name == old(scheduler_manager).stage_name,
        ({
            let i = old(scheduler_manager).index as int;
            let rem = old(run_state).cycle_remaining@[i];
            let cnt = old(run_state).cycle_count@[i];
            let leaves = rem == 0 || cnt + 1 == rem || old(scheduler_manager).advance_requested;
            &&& leaves ==> {
                &&& final(scheduler_manager).index == old(scheduler_manager).index + 1
                &&& final(scheduler_manager).state == (if old(scheduler_manager).index + 1 >= run_config.stages.len() {
                    SchedulerState::End
                } else {
                    SchedulerState::Setup
                })
                &&& !final(scheduler_manager).advance_requested
            }
            &&& !leaves ==> {
                &&& final(scheduler_manager).index == old(scheduler_manager).index
                &&& final(scheduler_manager).state == old(scheduler_manager).state
                &&& final(scheduler_manager).advance_requested == old(scheduler_manager).advance_requested
            }
            &&& rem == 0 ==> {
                &&& final(run_state).cycle_count@ == old(run_state).cycle_count@
                &&& final(run_state).total_cycle == old(run_state).total_cycle
            }
            &&& rem != 0 ==> {
                &&& final(run_state).cycle_count@ == old(run_state).cycle_count@.update(i, (cnt + 1) as u32)
                &&& final(run_state).total_cycle == old(run_state).total_cycle + 1
            }
        }),
{
    let ghost m0 = model_of(*run_state, *scheduler_manager);
    let ghost n = run_config.stages.len() as int;
    let index = scheduler_manager.index;
    let remaining = run_state.cycle_remaining[index];
    if remaining == 0 {
        scheduler_manager.advance_requested = false;
        scheduler_manager.index = scheduler_manager.index + 1;
        scheduler_manager.state = SchedulerState::Setup;
        if scheduler_manager.index >= run_config.num_stages() {
            scheduler_manager.state = SchedulerState::End;
        }
        proof {
            assert(model_of(*run_state, *scheduler_manager) =~= cycle_step(m0, n));
        }
        return;
    }
    run_state.cycle_count[index] = run_state.cycle_count[index] + 1;
    run_state.total_cycle = run_state.total_cycle + 1;
    let steps_done = run_state.cycle_count[index] == run_state.cycle_remaining[index];
    let advance = scheduler_manager.advance_requested;
    if steps_done || advance {
        scheduler_manager.advance_requested = false;
        scheduler_manager.index = scheduler_manager.index + 1;
        scheduler_manager.state = SchedulerState::Setup;
        if scheduler_manager.index >= run_config.num_stages() {
            scheduler_manager.state = SchedulerState::End;
        }
    }
    proof {
        assert(model_of(*run_state, *scheduler_manager).counts =~= cycle_step(m0, n).counts);
        assert(model_of(*run_state, *scheduler_manager) =~= cycle_step(m0, n));
    }
}

/// `k` successive timesteps from `m` (no system requests an early advance meanwhile).
pub open spec fn cycle_steps(m: RunModel, n: int, k: nat) -> RunModel
    decreases k,
{
    if k == 0 {
        m
    } else {
        cycle_step(cycle_steps(m, n, (k - 1) as nat), n)
    }
}

/// A stage that starts with `s > 0` steps to run stays current for exactly `s`
/// timesteps: after `k < s` steps it is still running with `k` steps counted,
/// and the `s`-th step moves the scheduler to the setup of the next stage (or
/// to the end after the last stage). Every one of these steps is counted once
/// in the total.
pub proof fn lemma_stage_runs_exactly_its_steps(m: RunModel, n: int, k: nat)
    requires
        0 <= m.index < m.remaining.len(),
        m.index < m.counts.len(),
        m.counts[m.index] == 0,
        m.remaining[m.index] > 0,
        !m.advance_requested,
        k <= m.remaining[m.index],
    ensures
        k < m.remaining[m.index] ==> {
            let r = cycle_steps(m, n, k);
            &&& r.index == m.index
            &&& r.counts[m.index] == k
            &&& r.total_cycle == m.total_cycle + k
            &&& r.state == m.state
            &&& !r.advance_requested
            &&& r.remaining == m.remaining
            &&& r.counts.len() == m.counts.len()
        },
        k == m.remaining[m.index] ==> {
            let r = cycle_steps(m, n, k);
            &&& r.index == m.index + 1
            &&& r.counts[m.index] == k
            &&& r.total_cycle == m.total_cycle + k
            &&& r.state == (if m.index + 1 >= n { SchedulerState::End } else { SchedulerState::Setup })
            &&& !r.advance_requested
        },
    decreases k,
{
    if k > 0 {
        lemma_stage_runs_exactly_its_steps(m, n, (k - 1) as nat);
    }
}

/// A skipped stage (nothing to run) is left at the first timestep without
/// counting a step.
pub proof fn lemma_skipped_stage_advances(m: RunModel, n: int)
    requires
        0 <= m.index < m.remaining.len(),
        m.remaining[m.index] == 0,
    ensures
        cycle_step(m, n).index == m.index + 1,
        cycle_step(m, n).total_cycle == m.total_cycle,
        cycle_step(m, n).counts == m.counts,
        cycle_step(m, n).state == (if m.index + 1 >= n { SchedulerState::End } else { SchedulerState::Setup }),
        !cycle_step(m, n).advance_requested,
{
}

/// A requested early advance ends the current stage at the end of the
/// current timestep, which is still counted.
pub proof fn lemma_advance_request_ends_stage(m: RunModel, n: int)
    requires
        0 <= m.index < m.remaining.len(),
        m.index < m.counts.len(),
        m.remaining[m.index] != 0,
        m.advance_requested,
    ensures
        cycle_step(m, n).index == m.index + 1,
        cycle_step(m, n).total_cycle == m.total_cycle + 1,
        cycle_step(m, n).counts[m.index] == m.counts[m.index] + 1,
        !cycle_step(m, n).advance_requested,
        cycle_step(m, n).state == (if m.index + 1 >= n { SchedulerState::End } else { SchedulerState::Setup }),
{
}

/// Whatever ends a stage (its last step, an early advance request, or having
/// nothing to run), the scheduler moves on to the next stage only, lands in
/// that stage's setup phase (or at the end after the last of `n` stages) and
/// forgets any pending advance request. A step that does not end the stage
/// keeps the stage, its phase and the request flag as they were.
pub proof fn lemma_stage_change_enters_setup(m: RunModel, n: int)
    requires
        0 <= m.index < m.remaining.len(),
        m.index < m.counts.len(),
    ensures
        cycle_step(m, n).index == m.index || cycle_step(m, n).index == m.index + 1,
        cycle_step(m, n).index == m.index + 1 ==> {
            &&& cycle_step(m, n).state == (if m.index + 1 >= n { SchedulerState::End } else { SchedulerState::Setup })
            &&& !cycle_step(m, n).advance_requested
        },
        cycle_step(m, n).index == m.index ==> {
            &&& cycle_step(m, n).state == m.state
            &&& cycle_step(m, n).advance_requested == m.advance_requested
        },
        (m.remaining[m.index] == 0 || m.advance_requested || m.counts[m.index] + 1 == m.remaining[m.index])
            <==> cycle_step(m, n).index == m.index + 1,
{
}

/// Manages run stages, cycle counting and scheduler state transitions.
pub struct RunPlugin;


// ── Stage names and stage overrides ────────────────────────────────────────

/// Copies the name of the current stage into the scheduler manager. Returns
/// `false`, changing nothing, when there is no current stage.
pub fn set_stage_name(run_config: &RunConfig, scheduler_manager: &mut SchedulerManager) -> (r: bool)
    ensures
        r == (old(scheduler_manager).index < run_config.stages.len()),
        r ==> final(scheduler_manager).stage_name == run_config.stages@[old(scheduler_manager).index as int].name,
        !r ==> final(scheduler_manager).stage_name == old(scheduler_manager).stage_name,
        final(scheduler_manager).index == old(scheduler_manager).index,
        final(scheduler_manager).state == old(scheduler_manager).state,
        final(scheduler_manager).advance_requested == old(scheduler_manager).advance_requested,
{
    let index = scheduler_manager.index;
    if index >= run_config.num_stages() {
        return false;
    }
    let stage = run_config.current_stage(index);
    scheduler_manager.stage_name = stage.name.clone();
    true
}

/// Configuration sections read only during the first stage, with what reads them.
pub open spec fn first_stage_only_sections() -> Seq<(Seq<char>, Seq<char>)> {
    seq![
        ("lattice"@, "lattice insertion (fcc_insert)"@),
        ("lj"@, "LJ tail corrections (setup_lj_tails)"@),
        ("bond"@, "auto-bonding (auto_bond_touching)"@),
        ("comm"@, "communicator setup (comm_read_input)"@),
        ("restart"@, "restart file reading (read_restart)"@),
    ]
}

fn first_stage_only_table() -> (t: Vec<(&'static str, &'static str)>)
    ensures
        t@.len() == first_stage_only_sections().len(),
        forall|i: int| 0 <= i < t@.len() ==> (#[trigger] t@[i]).0@ == first_stage_only_sections()[i].0 && t@[i].1@
            == first_stage_only_sections()[i].1,
{
    let mut t: Vec<(&'static str, &'static str)> = Vec::new();
    t.push(("lattice", "lattice insertion (fcc_insert)"));
    t.push(("lj", "LJ tail corrections (setup_lj_tails)"));
    t.push(("bond", "auto-bonding (auto_bond_touching)"));
    t.push(("comm", "communicator setup (comm_read_input)"));
    t.push(("restart", "restart file reading (read_restart)"));
    t
}

/// Whether `keys` holds the text `k`.
pub open spec fn has_key(keys: Seq<String>, k: Seq<char>) -> bool {
    exists|j: int| 0 <= j < keys.len() && (#[trigger] keys[j])@ == k
}

fn contains_key(keys: &Vec<String>, k: &str) -> (r: bool)
    ensures
        r == has_key(keys@, k@),
{
    let mut j: usize = 0;
    while j < keys.len()
        invariant
            j <= keys@.len(),
            forall|q: int| 0 <= q < j ==> (#[trigger] keys@[q])@ != k@,
        decreases keys.len() - j,
    {
        if same_text(keys[j].as_str(), k) {
            return true;
        }
        j = j + 1;
    }
    false
}

/// The overridden first-stage-only sections among the first `m` table rows.
pub open spec fn ignored_upto(index: usize, override_keys: Seq<String>, m: int) -> Seq<(Seq<char>, Seq<char>)>
    decreases m,
{
    if m <= 0 {
        Seq::empty()
    } else {
        let row = first_stage_only_sections()[m - 1];
        let prev = ignored_upto(index, override_keys, m - 1);
        if has_key(override_keys, row.0) {
            prev.push(row)
        } else {
            prev
        }
    }
}

/// The sections (with what reads them) that stage `index` overrides although
/// they are read only in the first stage, in table order; none for the first
/// stage itself. Each earns a warning that the override is ignored.
pub fn ignored_overrides(index: usize, override_keys: &Vec<String>) -> (r: Vec<(&'static str, &'static str)>)
    ensures
        index == 0 ==> r@.len() == 0,
        index > 0 ==> r@.map_values(|p: (&'static str, &'static str)| (p.0@, p.1@)) == ignored_upto(
            index,
            override_keys@,
            first_stage_only_sections().len() as int,
        ),
{
    let mut r: Vec<(&'static str, &'static str)> = Vec::new();
    if index == 0 {
        return r;
    }
    let table = first_stage_only_table();
    let mut i: usize = 0;
    while i < table.len()
        invariant
            i <= table@.len(),
            table@.len() == first_stage_only_sections().len(),
            forall|q: int| 0 <= q < table@.len() ==> (#[trigger] table@[q]).0@ == first_stage_only_sections()[q].0 && table@[q].1@
                == first_stage_only_sections()[q].1,
            r@.map_values(|p: (&'static str, &'static str)| (p.0@, p.1@)) == ignored_upto(index, override_keys@, i as int),
        decreases table.len() - i,
    {
        let row = table[i];
        if contains_key(override_keys, row.0) {
            let ghost before = r@;
            r.push(row);
            proof {
                assert(r@.map_values(|p: (&'static str, &'static str)| (p.0@, p.1@)) =~= before.map_values(
                    |p: (&'static str, &'static str)| (p.0@, p.1@),
                ).push((row.0@, row.1@)));
            }
        }
        i = i + 1;
    }
    r
}


// ── Output scheduling ──────────────────────────────────────────────────────

/// The output interval in effect: the stage's own, when it sets one.
pub open spec fn effective_interval(stage_interval: Option<usize>, global_interval: usize) -> usize {
    match stage_interval {
        Some(v) => v,
        None => global_interval,
    }
}

/// Whether periodic output (dump, restart or VTP files) is written at `step`:
/// the interval in effect is not 0 and divides the step.
pub fn output_due(stage_interval: Option<usize>, global_interval: usize, step: usize) -> (r: bool)
    ensures
        r == (effective_interval(stage_interval, global_interval) != 0 && step % effective_interval(
            stage_interval,
            global_interval,
        ) == 0),
{
    let interval = match stage_interval {
        Some(v) => v,
        None => global_interval,
    };
    interval != 0 && step % interval == 0
}

/// Whether thermo output is printed at `step`: the step is a multiple of the
/// interval (with interval 0, only step 0 is).
pub fn thermo_due(step: usize, interval: usize) -> (r: bool)
    ensures
        r == (if interval == 0 {
            step == 0
        } else {
            step % interval == 0
        }),
{
    if interval == 0 {
        step == 0
    } else {
        step % interval == 0
    }
}

/// Whether the files of a finishing stage are saved this step: the current
/// stage asks for it, is not skipped, and this is its last step (the step
/// counter has not yet been advanced) or an early advance was requested.
pub open spec fn stage_end_save_spec(run_config: RunConfig, run_state: RunState, manager: SchedulerManager) -> bool {
    let i = manager.index as int;
    &&& i < run_config.stages@.len()
    &&& run_config.stages@[i].save_at_end
    &&& run_state.cycle_remaining@[i] != 0
    &&& (run_state.cycle_count@[i] + 1 == run_state.cycle_remaining@[i] || manager.advance_requested)
}

/// Whether the files of a finishing stage are saved this step (see [`stage_end_save_spec`]).
pub fn stage_end_save_due(run_config: &RunConfig, run_state: &RunState, manager: &SchedulerManager) -> (r: bool)
    requires
        manager.index < run_config.stages@.len() && run_config.stages@[manager.index as int].save_at_end ==> {
            &&& manager.index < run_state.cycle_remaining@.len()
            &&& manager.index < run_state.cycle_count@.len()
            &&& run_state.cycle_remaining@[manager.index as int] != 0 ==> run_state.cycle_count@[manager.index as int] < u32::MAX
        },
    ensures
        r == stage_end_save_spec(*run_config, *run_state, *manager),
{
    let index = manager.index;
    if index >= run_config.num_stages() {
        return false;
    }
    let stage = run_config.current_stage(index);
    if !stage.save_at_end {
        return false;
    }
    let remaining = run_state.cycle_remaining[index];
    if remaining == 0 {
        return false;
    }
    let count = run_state.cycle_count[index];
    count + 1 == remaining || manager.advance_requested
}

} // verus!
