//! Scheduler state, simulation states and the fluent system-descriptor API.

use vstd::prelude::*;
use crate::ordering::StoredSystemEntry;
use vstd::std_specs::cmp::PartialEqSpec;

verus! {

/// Lifecycle of the scheduler: one-time setup of a stage, the run loop, the end.
#[derive(Debug, Clone, Copy, PartialEq, Eq, Structural)]
pub enum SchedulerState {
    Setup,
    Run,
    End,
}

/// Tracks the current run stage index and scheduler state.
///
/// `advance_requested` lets a system (e.g. an energy minimizer that has
/// converged) end the current stage early; `stage_name` is the name of the
/// current stage, if it has one.
pub struct SchedulerManager {
    pub state: SchedulerState,
    pub index: usize,
    pub advance_requested: bool,
    pub stage_name: Option<String>,
}

impl SchedulerManager {
    /// A manager at the setup of the first stage.
    pub fn new() -> (m: Self)
        ensures
            m.state == SchedulerState::Setup,
            m.index == 0,
            !m.advance_requested,
            m.stage_name is None,
    {
        SchedulerManager { state: SchedulerState::Setup, index: 0, advance_requested: false, stage_name: None }
    }
}

impl Default for SchedulerManager {
    fn default() -> (m: Self)
        ensures
            m.state == SchedulerState::Setup,
            m.index == 0,
            !m.advance_requested,
            m.stage_name is None,
    {
        SchedulerManager::new()
    }
}

/// The currently active simulation state.
pub struct CurrentState<S>(pub S);

/// The state to switch to at the end of the step, if any.
pub struct NextState<S>(pub Option<S>);

impl<S> NextState<S> {
    /// Requests a transition to `state`.
    pub fn set(&mut self, state: S)
        ensures
            final(self).0 == Some(state),
    {
        self.0 = Some(state);
    }

    /// Withdraws a pending transition.
    pub fn clear(&mut self)
        ensures
            final(self).0 is None,
    {
        self.0 = None;
    }
}

/// Applies a pending state transition: the requested state becomes current
/// and the request is consumed. Without a request nothing changes.
pub fn apply_state_transitions<S>(current: &mut CurrentState<S>, next: &mut NextState<S>)
    ensures
        final(next).0 is None,
        match old(next).0 {
            Some(s) => final(current).0 == s,
            None => final(current).0 == old(current).0,
        },
{
    if let Some(new_state) = next.0.take() {
        current.0 = new_state;
    }
}

/// Run condition that holds while the current state equals `target`.
pub struct InState<S> {
    pub target: S,
}

/// The run condition "the current state is `target`".
pub fn in_state<S>(target: S) -> (c: InState<S>)
    ensures
        c.target == target,
{
    InState { target }
}

impl<S: PartialEq> InState<S> {
    /// Evaluates the condition against the current state.
    pub fn evaluate(&self, current: &CurrentState<S>) -> (r: bool)
        ensures
            S::obeys_eq_spec() ==> r == current.0.eq_spec(&self.target),
    {
        current.0 == self.target
    }
}

/// Registers the current/next state resources of state type `S`, starting in `initial`.
pub struct StatesPlugin<S> {
    pub initial: S,
}

/// Watches the current state and ends the stage when it changes.
pub struct StageAdvancePlugin<S> {
    pub marker: core::marker::PhantomData<S>,
}

impl<S> StageAdvancePlugin<S> {
    pub fn new() -> (p: Self) {
        StageAdvancePlugin { marker: core::marker::PhantomData }
    }
}

/// The stage names of a stage enum, for validation of the run stages.
pub struct StageNames(pub &'static [&'static str]);

/// Marker for adding a single plugin.
pub struct PluginMarker;

/// Marker for adding a plugin group.
pub struct PluginGroupMarker;

/// TOML snippets collected from the registered plugins, one per plugin.
pub struct ConfigSnippets {
    pub snippets: Vec<String>,
}

impl ConfigSnippets {
    /// Records one more plugin snippet after those already collected.
    pub fn add(&mut self, snippet: String)
        ensures
            final(self).snippets@ == old(self).snippets@.push(snippet),
    {
        self.snippets.push(snippet);
    }
}

/// Marker: print the collected configuration snippets instead of running.
pub struct GenerateConfigFlag;

/// A system together with the run condition that gates it.
pub struct ConditionalSystem<S, C> {
    pub system: S,
    pub condition: C,
}

/// A system with ordering metadata: an optional label, the labels it must
/// run before and after, and the labels that must exist in its phase.
pub struct SystemDescriptor<S> {
    pub system: S,
    pub label: Option<String>,
    pub befores: Vec<String>,
    pub afters: Vec<String>,
    pub requires: Vec<String>,
}

/// Marker for registering a plain system.
pub struct FnMarker<I>(pub core::marker::PhantomData<I>);

/// Marker for registering a conditional system.
pub struct CondMarker;

/// Marker for registering a system descriptor.
pub struct DescMarker;

impl<S> SystemDescriptor<S> {
    /// A descriptor for `system` without any ordering metadata.
    pub fn from_system(system: S) -> (d: Self)
        ensures
            d.system == system,
            d.label is None,
            d.befores@.len() == 0,
            d.afters@.len() == 0,
            d.requires@.len() == 0,
    {
        SystemDescriptor { system, label: None, befores: Vec::new(), afters: Vec::new(), requires: Vec::new() }
    }

    /// Gives the system the label `lbl` (replacing an earlier one).
    pub fn label(self, lbl: &str) -> (d: Self)
        ensures
            d.label matches Some(l) && l@ == lbl@,
            d.system == self.system,
            d.befores@ == self.befores@,
            d.afters@ == self.afters@,
            d.requires@ == self.requires@,
    {
        let mut d = self;
        d.label = Some(lbl.to_owned());
        d
    }

    /// Adds the constraint "run before the system labelled `target`".
    pub fn before(self, target: &str) -> (d: Self)
        ensures
            d.befores@.len() == self.befores@.len() + 1,
            d.befores@.drop_last() == self.befores@,
            d.befores@.last()@ == target@,
            d.system == self.system,
            d.label == self.label,
            d.afters@ == self.afters@,
            d.requires@ == self.requires@,
    {
        let mut d = self;
        d.befores.push(target.to_owned());
        proof {
            assert(d.befores@.drop_last() =~= self.befores@);
        }
        d
    }

    /// Adds the constraint "run after the system labelled `target`".
    pub fn after(self, target: &str) -> (d: Self)
        ensures
            d.afters@.len() == self.afters@.len() + 1,
            d.afters@.drop_last() == self.afters@,
            d.afters@.last()@ == target@,
            d.system == self.system,
            d.label == self.label,
            d.befores@ == self.befores@,
            d.requires@ == self.requires@,
    {
        let mut d = self;
        d.afters.push(target.to_owned());
        proof {
            assert(d.afters@.drop_last() =~= self.afters@);
        }
        d
    }

    /// Adds the requirement "a system labelled `target` exists in this phase".
    pub fn requires_label(self, target: &str) -> (d: Self)
        ensures
            d.requires@.len() == self.requires@.len() + 1,
            d.requires@.drop_last() == self.requires@,
            d.requires@.last()@ == target@,
            d.system == self.system,
            d.label == self.label,
            d.befores@ == self.befores@,
            d.afters@ == self.afters@,
    {
        let mut d = self;
        d.requires.push(target.to_owned());
        proof {
            assert(d.requires@.drop_last() =~= self.requires@);
        }
        d
    }

    /// Gates the system behind the run condition `condition`, keeping its metadata.
    pub fn run_if<C>(self, condition: C) -> (d: SystemDescriptor<ConditionalSystem<S, C>>)
        ensures
            d.system.system == self.system,
            d.system.condition == condition,
            d.label == self.label,
            d.befores@ == self.befores@,
            d.afters@ == self.afters@,
            d.requires@ == self.requires@,
    {
        SystemDescriptor {
            system: ConditionalSystem { system: self.system, condition },
            label: self.label,
            befores: self.befores,
            afters: self.afters,
            requires: self.requires,
        }
    }

    /// The stored form of the descriptor, under the system's name `name`.
    pub fn into_stored(self, name: String) -> (e: StoredSystemEntry<S>)
        ensures
            e.system == self.system,
            e.name == name,
            e.label == self.label,
            e.befores@ == self.befores@,
            e.afters@ == self.afters@,
            e.requires@ == self.requires@,
    {
        StoredSystemEntry {
            system: self.system,
            name,
            label: self.label,
            befores: self.befores,
            afters: self.afters,
            requires: self.requires,
        }
    }
}

} // verus!
