//! Organizing a whole schedule: systems are sorted by phase (keeping
//! registration order among systems of the same phase), each phase is put in
//! topological order, and `requires_label` declarations are checked per phase.

use vstd::prelude::*;
use vstd::multiset::Multiset;
use crate::schedule::{ScheduleSet, ScheduleSetupSet, set_index, setup_index, set_to_value, setup_set_to_value, texts};
use crate::ordering::{
    StoredSystemEntry, ScheduleError, constraint_count, topo_rearrangement, orderable, label_absent,
    has_label, find_label, topo_sort_group, is_permutation, rearranged, is_topo_order, appears, kahn_order,
};

verus! {

/// Number of run-loop phases.
pub const NUM_SETS: usize = 14;

/// Number of setup phases.
pub const NUM_SETUP_SETS: usize = 3;

/// Entries of `s` registered for the run-loop phase with index `v`, in registration order.
pub open spec fn phase_group<E>(s: Seq<(E, ScheduleSet)>, v: int) -> Seq<(E, ScheduleSet)>
    decreases s.len(),
{
    if s.len() == 0 {
        Seq::empty()
    } else if set_index(s.last().1) == v {
        phase_group(s.drop_last(), v).push(s.last())
    } else {
        phase_group(s.drop_last(), v)
    }
}

/// Entries of `s` registered for the setup phase with index `v`, in registration order.
pub open spec fn setup_group<E>(s: Seq<(E, ScheduleSetupSet)>, v: int) -> Seq<(E, ScheduleSetupSet)>
    decreases s.len(),
{
    if s.len() == 0 {
        Seq::empty()
    } else if setup_index(s.last().1) == v {
        setup_group(s.drop_last(), v).push(s.last())
    } else {
        setup_group(s.drop_last(), v)
    }
}

/// The concatenation `parts[0] + … + parts[m-1]`.
pub open spec fn concat_parts<T>(parts: Seq<Seq<T>>, m: int) -> Seq<T>
    decreases m,
{
    if m <= 0 {
        Seq::empty()
    } else {
        concat_parts(parts, m - 1) + parts[m - 1]
    }
}

/// Total number of ordering constraints declared by the systems of `g`.
pub open spec fn total_constraints<S>(g: Seq<(StoredSystemEntry<S>, ScheduleSet)>) -> nat {
    constraint_count(g, g.len() as int)
}

/// `r` is the phase group `g` in the order the scheduler runs it: unchanged
/// when it has at most one system, otherwise in the order Kahn's algorithm
/// takes its systems, which honours all of their constraints.
pub open spec fn arranged_phase<S>(
    g: Seq<(StoredSystemEntry<S>, ScheduleSet)>,
    r: Seq<(StoredSystemEntry<S>, ScheduleSet)>,
) -> bool {
    if g.len() <= 1 {
        r == g
    } else {
        &&& topo_rearrangement(g, r)
        &&& rearranged(g, kahn_order(g), r)
    }
}

/// The phase group `g` can be ordered (it is small or its constraints have no cycle).
pub open spec fn phase_orderable<S>(g: Seq<(StoredSystemEntry<S>, ScheduleSet)>) -> bool {
    g.len() <= 1 || orderable(g)
}

/// One error per name in the first `k` `requires` of entry `e` (registered in
/// phase `set`) that no entry of the phase group `p` carries as its label.
pub open spec fn entry_label_errors<S>(
    p: Seq<(StoredSystemEntry<S>, ScheduleSet)>,
    e: StoredSystemEntry<S>,
    set: ScheduleSet,
    k: int,
) -> Seq<ScheduleError>
    decreases k,
{
    if k <= 0 {
        Seq::empty()
    } else if label_absent(p, e.requires@[k - 1]@) {
        entry_label_errors(p, e, set, k - 1).push(
            ScheduleError::MissingLabel { system: e.name, set: set, label: e.requires@[k - 1] },
        )
    } else {
        entry_label_errors(p, e, set, k - 1)
    }
}

/// Missing-label errors of the first `m` entries of the phase group `p`, in order.
pub open spec fn group_label_errors<S>(p: Seq<(StoredSystemEntry<S>, ScheduleSet)>, m: int) -> Seq<ScheduleError>
    decreases m,
{
    if m <= 0 {
        Seq::empty()
    } else {
        group_label_errors(p, m - 1) + entry_label_errors(p, p[m - 1].0, p[m - 1].1, p[m - 1].0.requires@.len() as int)
    }
}

/// Missing-label errors of the first `m` phases, in phase order.
pub open spec fn all_label_errors<S>(parts: Seq<Seq<(StoredSystemEntry<S>, ScheduleSet)>>, m: int) -> Seq<ScheduleError>
    decreases m,
{
    if m <= 0 {
        Seq::empty()
    } else {
        all_label_errors(parts, m - 1) + group_label_errors(parts[m - 1], parts[m - 1].len() as int)
    }
}

/// `sorted` is `input` organized phase by phase as described by `parts`, and
/// `errors` lists the unresolved `requires_label` names of every phase.
pub open spec fn organized<S>(
    input: Seq<(StoredSystemEntry<S>, ScheduleSet)>,
    parts: Seq<Seq<(StoredSystemEntry<S>, ScheduleSet)>>,
    sorted: Seq<(StoredSystemEntry<S>, ScheduleSet)>,
    errors: Seq<ScheduleError>,
) -> bool {
    &&& parts.len() == NUM_SETS
    &&& forall|v: int| 0 <= v < NUM_SETS ==> arranged_phase(phase_group(input, v), #[trigger] parts[v])
    &&& sorted == concat_parts(parts, NUM_SETS as int)
    &&& errors == all_label_errors(parts, NUM_SETS as int)
}

/// `sorted` and `errors` are what organizing `input` yields, phase by phase.
pub open spec fn organizes<S>(
    input: Seq<(StoredSystemEntry<S>, ScheduleSet)>,
    sorted: Seq<(StoredSystemEntry<S>, ScheduleSet)>,
    errors: Seq<ScheduleError>,
) -> bool {
    exists|parts: Seq<Seq<(StoredSystemEntry<S>, ScheduleSet)>>| organized(input, parts, sorted, errors)
}

// ── Lemmas ─────────────────────────────────────────────────────────────────

proof fn lemma_constraint_count_prefix<S>(s: Seq<(StoredSystemEntry<S>, ScheduleSet)>, x: (StoredSystemEntry<S>, ScheduleSet), m: int)
    requires
        0 <= m <= s.len(),
    ensures
        constraint_count(s.push(x), m) == constraint_count(s, m),
    decreases m,
{
    if m > 0 {
        lemma_constraint_count_prefix(s, x, m - 1);
    }
}

proof fn lemma_total_push<S>(s: Seq<(StoredSystemEntry<S>, ScheduleSet)>, x: (StoredSystemEntry<S>, ScheduleSet))
    ensures
        total_constraints(s.push(x)) == total_constraints(s) + x.0.befores@.len() + x.0.afters@.len(),
{
    lemma_constraint_count_prefix(s, x, s.len() as int);
}

proof fn lemma_phase_group_constraints<S>(s: Seq<(StoredSystemEntry<S>, ScheduleSet)>, v: int)
    ensures
        total_constraints(phase_group(s, v)) <= total_constraints(s),
    decreases s.len(),
{
    if s.len() > 0 {
        lemma_phase_group_constraints(s.drop_last(), v);
        assert(s =~= s.drop_last().push(s.last()));
        lemma_total_push(s.drop_last(), s.last());
        if set_index(s.last().1) == v {
            lemma_total_push(phase_group(s.drop_last(), v), s.last());
        }
    }
}

// ── Executable ─────────────────────────────────────────────────────────────

/// Splits `systems` into one group per run-loop phase, keeping registration order.
fn bucket_by_phase<S>(systems: Vec<(StoredSystemEntry<S>, ScheduleSet)>) -> (groups: Vec<Vec<(StoredSystemEntry<S>, ScheduleSet)>>)
    ensures
        groups.len() == NUM_SETS,
        forall|v: int| 0 <= v < NUM_SETS ==> (#[trigger] groups[v])@ == phase_group(systems@, v),
{
    let ghost input = systems@;
    let mut systems = systems;
    let mut rev: Vec<(StoredSystemEntry<S>, ScheduleSet)> = Vec::new();
    while systems.len() > 0
        invariant
            systems.len() + rev.len() == input.len(),
            systems@ == input.take(systems.len() as int),
            forall|k: int| 0 <= k < rev.len() ==> #[trigger] rev[k] == input[input.len() - 1 - k],
        decreases systems.len(),
    {
        let x = systems.pop().unwrap();
        rev.push(x);
        proof {
            assert(systems@ =~= input.take(systems.len() as int));
        }
    }
    let mut groups: Vec<Vec<(StoredSystemEntry<S>, ScheduleSet)>> = Vec::new();
    let mut v: usize = 0;
    while v < NUM_SETS
        invariant
            v <= NUM_SETS,
            groups.len() == v,
            forall|w: int| 0 <= w < v ==> (#[trigger] groups[w])@ == phase_group(input.take(0), w),
        decreases NUM_SETS - v,
    {
        groups.push(Vec::new());
        proof {
            assert(input.take(0).len() == 0);
        }
        v = v + 1;
    }
    while rev.len() > 0
        invariant
            groups.len() == NUM_SETS,
            rev.len() <= input.len(),
            forall|k: int| 0 <= k < rev.len() ==> #[trigger] rev[k] == input[input.len() - 1 - k],
            forall|w: int| 0 <= w < NUM_SETS ==> (#[trigger] groups[w])@ == phase_group(input.take(input.len() - rev.len()), w),
        decreases rev.len(),
    {
        let ghost done = input.len() - rev.len();
        let x = rev.pop().unwrap();
        let idx = set_to_value(&x.1) as usize;
        let ghost old_groups = groups@;
        groups[idx].push(x);
        proof {
            assert(input.take(done + 1).drop_last() =~= input.take(done));
            assert(input.take(done + 1).last() == x);
            assert forall|w: int| 0 <= w < NUM_SETS implies (#[trigger] groups[w])@ == phase_group(input.take(done + 1), w) by {
                if w != idx {
                    assert(groups[w] == old_groups[w]);
                }
            }
        }
    }
    proof {
        assert(input.take(input.len() as int) =~= input);
    }
    groups
}

/// Whether some system of `group` carries the label `target`.
fn label_present<S>(group: &Vec<(StoredSystemEntry<S>, ScheduleSet)>, target: &String) -> (b: bool)
    ensures
        b == !label_absent(group@, target@),
{
    match find_label(group, target) {
        Some(i) => {
            proof {
                assert(has_label(group@[i as int].0, target@));
            }
            true
        },
        None => false,
    }
}

/// Appends to `errors` one [`ScheduleError::MissingLabel`] per `requires_label`
/// name of a system of `group` that no system of `group` carries.
fn collect_label_errors<S>(group: &Vec<(StoredSystemEntry<S>, ScheduleSet)>, errors: &mut Vec<ScheduleError>)
    ensures
        final(errors)@ == old(errors)@ + group_label_errors(group@, group.len() as int),
{
    let ghost start = errors@;
    let mut i: usize = 0;
    while i < group.len()
        invariant
            i <= group.len(),
            errors@ == start + group_label_errors(group@, i as int),
        decreases group.len() - i,
    {
        let ghost before_entry = errors@;
        let entry = &group[i].0;
        let set = group[i].1;
        let mut k: usize = 0;
        while k < entry.requires.len()
            invariant
                i < group.len(),
                entry == &group@[i as int].0,
                set == group@[i as int].1,
                k <= entry.requires.len(),
                errors@ == before_entry + entry_label_errors(group@, *entry, set, k as int),
            decreases entry.requires.len() - k,
        {
            let req = &entry.requires[k];
            if !label_present(group, req) {
                errors.push(ScheduleError::MissingLabel { system: entry.name.clone(), set, label: req.clone() });
            }
            proof {
                assert(entry.requires@[k as int] == *req);
            }
            k = k + 1;
        }
        proof {
            assert(errors@ =~= start + group_label_errors(group@, i + 1));
        }
        i = i + 1;
    }
}

/// Organizes the run-loop systems: phases run in order, systems of one phase in
/// an order honouring their `before`/`after` constraints (registration order
/// where unconstrained), and every `requires_label` name must be carried by a
/// system of the same phase. Returns the organized systems and the list of
/// missing labels, or the cycle error of the first phase whose constraints
/// cannot all be honoured.
pub fn organize_update_systems<S>(systems: Vec<(StoredSystemEntry<S>, ScheduleSet)>) -> (r: Result<
    (Vec<(StoredSystemEntry<S>, ScheduleSet)>, Vec<ScheduleError>),
    ScheduleError,
>)
    requires
        total_constraints(systems@) < usize::MAX,
    ensures
        (r is Ok) <==> (forall|v: int| 0 <= v < NUM_SETS ==> #[trigger] phase_orderable(phase_group(systems@, v))),
        r matches Ok(res) ==> organizes(systems@, res.0@, res.1@),
        r matches Err(e) ==> (exists|v: int| {
            &&& 0 <= v < NUM_SETS
            &&& !phase_orderable(phase_group(systems@, v))
            &&& e == ScheduleError::Cycle { set: phase_group(systems@, v)[0].1 }
            &&& forall|w: int| 0 <= w < v ==> #[trigger] phase_orderable(phase_group(systems@, w))
        }),
{
    let ghost input = systems@;
    let mut groups = bucket_by_phase(systems);
    let mut sorted: Vec<(StoredSystemEntry<S>, ScheduleSet)> = Vec::new();
    let mut errors: Vec<ScheduleError> = Vec::new();
    let ghost mut parts: Seq<Seq<(StoredSystemEntry<S>, ScheduleSet)>> = Seq::empty();
    let mut v: usize = 0;
    while v < NUM_SETS
        invariant
            v <= NUM_SETS,
            input == systems@,
            total_constraints(input) < usize::MAX,
            groups.len() == NUM_SETS,
            forall|w: int| v <= w < NUM_SETS ==> (#[trigger] groups[w])@ == phase_group(input, w),
            parts.len() == v,
            forall|w: int| 0 <= w < v ==> arranged_phase(phase_group(input, w), #[trigger] parts[w]),
            forall|w: int| 0 <= w < v ==> #[trigger] phase_orderable(phase_group(input, w)),
            sorted@ == concat_parts(parts, v as int),
            errors@ == all_label_errors(parts, v as int),
        decreases NUM_SETS - v,
    {
        let mut group: Vec<(StoredSystemEntry<S>, ScheduleSet)> = Vec::new();
        std::mem::swap(&mut group, &mut groups[v]);
        let ghost g = group@;
        proof {
            lemma_phase_group_constraints(input, v as int);
            assert(g == phase_group(input, v as int));
        }
        match topo_sort_group(&mut group) {
            Err(e) => {
                proof {
                    assert(!phase_orderable(phase_group(input, v as int)));
                    assert(input == systems@);
                    assert(e == ScheduleError::Cycle { set: phase_group(input, v as int)[0].1 });
                    assert(forall|w: int| 0 <= w < v ==> #[trigger] phase_orderable(phase_group(input, w)));
                }
                return Err(e);
            },
            Ok(()) => {},
        }
        proof {
            assert(arranged_phase(g, group@));
        }
        let ghost old_sorted = sorted@;
        let ghost old_errors = errors@;
        let ghost old_parts = parts;
        collect_label_errors(&group, &mut errors);
        let ghost arranged = group@;
        sorted.append(&mut group);
        proof {
            parts = parts.push(arranged);
            assert(parts.drop_last() =~= old_parts);
            assert(parts[v as int] == arranged);
            assert(concat_parts(parts, v as int) == concat_parts(parts.drop_last(), v as int)) by {
                lemma_concat_parts_prefix(parts.drop_last(), arranged, v as int);
                assert(parts.drop_last().push(arranged) =~= parts);
            }
            assert(all_label_errors(parts, v as int) == all_label_errors(parts.drop_last(), v as int)) by {
                lemma_all_label_errors_prefix(parts.drop_last(), arranged, v as int);
                assert(parts.drop_last().push(arranged) =~= parts);
            }
            assert forall|w: int| 0 <= w < v + 1 implies arranged_phase(phase_group(input, w), #[trigger] parts[w]) by {
            }
            assert(sorted@ == old_sorted + arranged);
            assert(concat_parts(parts, v + 1) == concat_parts(parts, v as int) + parts[v as int]);
            assert(errors@ == old_errors + group_label_errors(arranged, arranged.len() as int));
            assert(all_label_errors(parts, v + 1) == all_label_errors(parts, v as int) + group_label_errors(parts[v as int], parts[v as int].len() as int));
        }
        v = v + 1;
    }
    proof {
        assert(parts.len() == NUM_SETS);
        assert(forall|w: int| 0 <= w < NUM_SETS ==> arranged_phase(phase_group(input, w), #[trigger] parts[w]));
        assert(sorted@ == concat_parts(parts, NUM_SETS as int));
        assert(errors@ == all_label_errors(parts, NUM_SETS as int));
        assert(organized(input, parts, sorted@, errors@));
        assert(input == systems@);
        assert(organizes(systems@, sorted@, errors@));
    }
    Ok((sorted, errors))
}

// ── Schedule warnings ──────────────────────────────────────────────────────

/// Some system of `systems` runs in the phase with index `v`.
pub open spec fn phase_used<E>(systems: Seq<(E, ScheduleSet)>, v: int) -> bool {
    exists|i: int| 0 <= i < systems.len() && set_index(#[trigger] systems[i].1) == v
}

/// Number of phases with index in `1..m` that hold at least one system.
pub open spec fn used_update_phases<E>(systems: Seq<(E, ScheduleSet)>, m: int) -> nat
    decreases m,
{
    if m <= 1 {
        0
    } else {
        used_update_phases(systems, m - 1) + (if phase_used(systems, m - 1) { 1nat } else { 0nat })
    }
}

pub open spec fn no_force_text() -> Seq<char> {
    "[MDDEM Warning] No systems registered in the Force schedule set. Forces will not be computed. Did you forget a force plugin?"@
}

pub open spec fn initial_only_text() -> Seq<char> {
    "[MDDEM Warning] InitialIntegration has systems but FinalIntegration is empty. This produces an asymmetric Verlet integration."@
}

pub open spec fn final_only_text() -> Seq<char> {
    "[MDDEM Warning] FinalIntegration has systems but InitialIntegration is empty. This produces an asymmetric Verlet integration."@
}

pub open spec fn no_integrator_text() -> Seq<char> {
    "[MDDEM Warning] Schedule has update systems but no integrator (neither InitialIntegration nor FinalIntegration has systems). Particles will not move."@
}

/// Warnings for a suspicious run-loop schedule: none for an empty schedule;
/// otherwise, in this order, an empty `Force` phase while other update phases
/// are used, a one-sided Verlet integration (`InitialIntegration` without
/// `FinalIntegration` or the reverse), and more than two update phases with no
/// integration phase at all. `Setup` does not count as an update phase.
pub open spec fn schedule_warning_texts<E>(systems: Seq<(E, ScheduleSet)>) -> Seq<Seq<char>> {
    if systems.len() == 0 {
        Seq::empty()
    } else {
        let count = used_update_phases(systems, NUM_SETS as int);
        let has_initial = phase_used(systems, 2);
        let has_final = phase_used(systems, 12);
        let w1: Seq<Seq<char>> = if count > 0 && !phase_used(systems, 9) {
            seq![no_force_text()]
        } else {
            Seq::empty()
        };
        let w2: Seq<Seq<char>> = if has_initial && !has_final {
            seq![initial_only_text()]
        } else if !has_initial && has_final {
            seq![final_only_text()]
        } else {
            Seq::empty()
        };
        let w3: Seq<Seq<char>> = if count > 2 && !has_initial && !has_final {
            seq![no_integrator_text()]
        } else {
            Seq::empty()
        };
        w1 + w2 + w3
    }
}

/// Warnings for suspicious run-loop schedules (see [`schedule_warning_texts`]).
pub fn schedule_warnings<S>(update_systems: &Vec<(StoredSystemEntry<S>, ScheduleSet)>) -> (warnings: Vec<String>)
    ensures
        texts(warnings@) == schedule_warning_texts(update_systems@),
{
    let mut warnings: Vec<String> = Vec::new();
    if update_systems.len() == 0 {
        proof {
            assert(texts(warnings@) =~= schedule_warning_texts(update_systems@));
        }
        return warnings;
    }
    let mut has_systems: Vec<bool> = Vec::new();
    let mut v: usize = 0;
    while v < NUM_SETS
        invariant
            v <= NUM_SETS,
            has_systems.len() == v,
            forall|w: int| 0 <= w < v ==> !(#[trigger] has_systems[w]),
        decreases NUM_SETS - v,
    {
        has_systems.push(false);
        v = v + 1;
    }
    let mut i: usize = 0;
    while i < update_systems.len()
        invariant
            i <= update_systems.len(),
            has_systems.len() == NUM_SETS,
            forall|w: int| 0 <= w < NUM_SETS ==> (#[trigger] has_systems[w] <==> phase_used(update_systems@.take(i as int), w)),
        decreases update_systems.len() - i,
    {
        let idx = set_to_value(&update_systems[i].1) as usize;
        has_systems[idx] = true;
        proof {
            let t0 = update_systems@.take(i as int);
            let t1 = update_systems@.take(i + 1);
            assert forall|w: int| 0 <= w < NUM_SETS implies (#[trigger] has_systems[w] <==> phase_used(t1, w)) by {
                if phase_used(t1, w) {
                    let j = choose|j: int| 0 <= j < t1.len() && set_index(#[trigger] t1[j].1) == w;
                    if j < i {
                        assert(t0[j] == t1[j]);
                    }
                }
                if phase_used(t0, w) {
                    let j = choose|j: int| 0 <= j < t0.len() && set_index(#[trigger] t0[j].1) == w;
                    assert(t1[j] == t0[j]);
                }
                if w == idx {
                    assert(set_index(t1[i as int].1) == w);
                }
            }
        }
        i = i + 1;
    }
    proof {
        assert(update_systems@.take(update_systems@.len() as int) =~= update_systems@);
    }
    let mut count: usize = 0;
    let mut v: usize = 1;
    while v < NUM_SETS
        invariant
            1 <= v <= NUM_SETS,
            has_systems.len() == NUM_SETS,
            forall|w: int| 0 <= w < NUM_SETS ==> (#[trigger] has_systems[w] <==> phase_used(update_systems@, w)),
            count == used_update_phases(update_systems@, v as int),
            count < v,
        decreases NUM_SETS - v,
    {
        if has_systems[v] {
            count = count + 1;
        }
        v = v + 1;
    }
    let has_force = has_systems[9];
    let has_initial = has_systems[2];
    let has_final = has_systems[12];
    if count > 0 && !has_force {
        warnings.push(
            "[MDDEM Warning] No systems registered in the Force schedule set. Forces will not be computed. Did you forget a force plugin?".to_owned(),
        );
    }
    if has_initial && !has_final {
        warnings.push(
            "[MDDEM Warning] InitialIntegration has systems but FinalIntegration is empty. This produces an asymmetric Verlet integration.".to_owned(),
        );
    } else if !has_initial && has_final {
        warnings.push(
            "[MDDEM Warning] FinalIntegration has systems but InitialIntegration is empty. This produces an asymmetric Verlet integration.".to_owned(),
        );
    }
    if count > 2 && !has_initial && !has_final {
        warnings.push(
            "[MDDEM Warning] Schedule has update systems but no integrator (neither InitialIntegration nor FinalIntegration has systems). Particles will not move.".to_owned(),
        );
    }
    proof {
        assert(texts(warnings@) =~= schedule_warning_texts(update_systems@));
    }
    warnings
}

// ── Setup systems ──────────────────────────────────────────────────────────

/// Splits `systems` into one group per setup phase, keeping registration order.
fn bucket_by_setup_phase<S>(systems: Vec<(StoredSystemEntry<S>, ScheduleSetupSet)>) -> (groups: Vec<Vec<(StoredSystemEntry<S>, ScheduleSetupSet)>>)
    ensures
        groups.len() == NUM_SETUP_SETS,
        forall|v: int| 0 <= v < NUM_SETUP_SETS ==> (#[trigger] groups[v])@ == setup_group(systems@, v),
{
    let ghost input = systems@;
    let mut systems = systems;
    let mut rev: Vec<(StoredSystemEntry<S>, ScheduleSetupSet)> = Vec::new();
    while systems.len() > 0
        invariant
            systems.len() + rev.len() == input.len(),
            systems@ == input.take(systems.len() as int),
            forall|k: int| 0 <= k < rev.len() ==> #[trigger] rev[k] == input[input.len() - 1 - k],
        decreases systems.len(),
    {
        let x = systems.pop().unwrap();
        rev.push(x);
        proof {
            assert(systems@ =~= input.take(systems.len() as int));
        }
    }
    let mut groups: Vec<Vec<(StoredSystemEntry<S>, ScheduleSetupSet)>> = Vec::new();
    let mut v: usize = 0;
    while v < NUM_SETUP_SETS
        invariant
            v <= NUM_SETUP_SETS,
            groups.len() == v,
            forall|w: int| 0 <= w < v ==> (#[trigger] groups[w])@ == setup_group(input.take(0), w),
        decreases NUM_SETUP_SETS - v,
    {
        groups.push(Vec::new());
        proof {
            assert(input.take(0).len() == 0);
        }
        v = v + 1;
    }
    while rev.len() > 0
        invariant
            groups.len() == NUM_SETUP_SETS,
            rev.len() <= input.len(),
            forall|k: int| 0 <= k < rev.len() ==> #[trigger] rev[k] == input[input.len() - 1 - k],
            forall|w: int| 0 <= w < NUM_SETUP_SETS ==> (#[trigger] groups[w])@ == setup_group(input.take(input.len() - rev.len()), w),
        decreases rev.len(),
    {
        let ghost done = input.len() - rev.len();
        let x = rev.pop().unwrap();
        let idx = setup_set_to_value(&x.1) as usize;
        let ghost old_groups = groups@;
        groups[idx].push(x);
        proof {
            assert(input.take(done + 1).drop_last() =~= input.take(done));
            assert(input.take(done + 1).last() == x);
            assert forall|w: int| 0 <= w < NUM_SETUP_SETS implies (#[trigger] groups[w])@ == setup_group(input.take(done + 1), w) by {
                if w != idx {
                    assert(groups[w] == old_groups[w]);
                }
            }
        }
    }
    proof {
        assert(input.take(input.len() as int) =~= input);
    }
    groups
}

/// Orders the setup systems by setup phase (`PreSetup`, `Setup`, `PostSetup`),
/// keeping registration order within a phase.
pub fn organize_setup_systems<S>(systems: Vec<(StoredSystemEntry<S>, ScheduleSetupSet)>) -> (sorted: Vec<(StoredSystemEntry<S>, ScheduleSetupSet)>)
    ensures
        sorted@ == setup_group(systems@, 0) + setup_group(systems@, 1) + setup_group(systems@, 2),
{
    let ghost input = systems@;
    let mut groups = bucket_by_setup_phase(systems);
    let mut sorted: Vec<(StoredSystemEntry<S>, ScheduleSetupSet)> = Vec::new();
    let mut g0: Vec<(StoredSystemEntry<S>, ScheduleSetupSet)> = Vec::new();
    let mut g1: Vec<(StoredSystemEntry<S>, ScheduleSetupSet)> = Vec::new();
    let mut g2: Vec<(StoredSystemEntry<S>, ScheduleSetupSet)> = Vec::new();
    std::mem::swap(&mut g0, &mut groups[0]);
    std::mem::swap(&mut g1, &mut groups[1]);
    std::mem::swap(&mut g2, &mut groups[2]);
    sorted.append(&mut g0);
    sorted.append(&mut g1);
    sorted.append(&mut g2);
    proof {
        assert(input == systems@);
    }
    sorted
}

// ── Removing systems ───────────────────────────────────────────────────────

/// `s` without the entries labelled `l` (order kept).
pub open spec fn without_label<S, P>(s: Seq<(StoredSystemEntry<S>, P)>, l: Seq<char>) -> Seq<(StoredSystemEntry<S>, P)>
    decreases s.len(),
{
    if s.len() == 0 {
        Seq::empty()
    } else if has_label(s.last().0, l) {
        without_label(s.drop_last(), l)
    } else {
        without_label(s.drop_last(), l).push(s.last())
    }
}

/// `s` without the entries named `name` (order kept).
pub open spec fn without_name<S, P>(s: Seq<(StoredSystemEntry<S>, P)>, name: Seq<char>) -> Seq<(StoredSystemEntry<S>, P)>
    decreases s.len(),
{
    if s.len() == 0 {
        Seq::empty()
    } else if s.last().0.name@ == name {
        without_name(s.drop_last(), name)
    } else {
        without_name(s.drop_last(), name).push(s.last())
    }
}

/// Removes every update system labelled `label`.
pub fn remove_update_system_by_label<S>(systems: &mut Vec<(StoredSystemEntry<S>, ScheduleSet)>, label: &str)
    ensures
        final(systems)@ == without_label(old(systems)@, label@),
{
    let ghost input = systems@;
    let target = label.to_owned();
    let mut rev: Vec<(StoredSystemEntry<S>, ScheduleSet)> = Vec::new();
    while systems.len() > 0
        invariant
            systems.len() + rev.len() == input.len(),
            systems@ == input.take(systems.len() as int),
            forall|k: int| 0 <= k < rev.len() ==> #[trigger] rev[k] == input[input.len() - 1 - k],
        decreases systems.len(),
    {
        let x = systems.pop().unwrap();
        rev.push(x);
        proof {
            assert(systems@ =~= input.take(systems.len() as int));
        }
    }
    while rev.len() > 0
        invariant
            rev.len() <= input.len(),
            target@ == label@,
            forall|k: int| 0 <= k < rev.len() ==> #[trigger] rev[k] == input[input.len() - 1 - k],
            systems@ == without_label(input.take(input.len() - rev.len()), label@),
        decreases rev.len(),
    {
        let ghost done = input.len() - rev.len();
        let x = rev.pop().unwrap();
        let keep = match &x.0.label {
            Some(l) => !(*l == target),
            None => true,
        };
        if keep {
            systems.push(x);
        }
        proof {
            assert(input.take(done + 1).drop_last() =~= input.take(done));
            assert(input.take(done + 1).last() == x);
        }
    }
    proof {
        assert(input.take(input.len() as int) =~= input);
    }
}

/// Removes every update system whose name is `name`.
pub fn remove_update_system_by_name<S>(systems: &mut Vec<(StoredSystemEntry<S>, ScheduleSet)>, name: &str)
    ensures
        final(systems)@ == without_name(old(systems)@, name@),
{
    let ghost input = systems@;
    let target = name.to_owned();
    let mut rev: Vec<(StoredSystemEntry<S>, ScheduleSet)> = Vec::new();
    while systems.len() > 0
        invariant
            systems.len() + rev.len() == input.len(),
            systems@ == input.take(systems.len() as int),
            forall|k: int| 0 <= k < rev.len() ==> #[trigger] rev[k] == input[input.len() - 1 - k],
        decreases systems.len(),
    {
        let x = systems.pop().unwrap();
        rev.push(x);
        proof {
            assert(systems@ =~= input.take(systems.len() as int));
        }
    }
    while rev.len() > 0
        invariant
            rev.len() <= input.len(),
            target@ == name@,
            forall|k: int| 0 <= k < rev.len() ==> #[trigger] rev[k] == input[input.len() - 1 - k],
            systems@ == without_name(input.take(input.len() - rev.len()), name@),
        decreases rev.len(),
    {
        let ghost done = input.len() - rev.len();
        let x = rev.pop().unwrap();
        let keep = !(x.0.name == target);
        if keep {
            systems.push(x);
        }
        proof {
            assert(input.take(done + 1).drop_last() =~= input.take(done));
            assert(input.take(done + 1).last() == x);
        }
    }
    proof {
        assert(input.take(input.len() as int) =~= input);
    }
}

proof fn lemma_concat_parts_prefix<T>(parts: Seq<Seq<T>>, x: Seq<T>, m: int)
    requires
        0 <= m <= parts.len(),
    ensures
        concat_parts(parts.push(x), m) == concat_parts(parts, m),
    decreases m,
{
    if m > 0 {
        lemma_concat_parts_prefix(parts, x, m - 1);
    }
}

proof fn lemma_all_label_errors_prefix<S>(
    parts: Seq<Seq<(StoredSystemEntry<S>, ScheduleSet)>>,
    x: Seq<(StoredSystemEntry<S>, ScheduleSet)>,
    m: int,
)
    requires
        0 <= m <= parts.len(),
    ensures
        all_label_errors(parts.push(x), m) == all_label_errors(parts, m),
    decreases m,
{
    if m > 0 {
        lemma_all_label_errors_prefix(parts, x, m - 1);
    }
}


// ── Organizing keeps every system ──────────────────────────────────────────

proof fn lemma_rearranged_multiset<T>(g: Seq<T>, o: Seq<usize>, r: Seq<T>)
    requires
        is_permutation(o, g.len() as int),
        rearranged(g, o, r),
    ensures
        r.to_multiset() == g.to_multiset(),
    decreases g.len(),
{
    broadcast use vstd::seq_lib::to_multiset_build, vstd::seq_lib::to_multiset_remove, vstd::seq_lib::to_multiset_contains;
    broadcast use vstd::multiset::group_multiset_axioms;

    let n = g.len() as int;
    if n == 0 {
        assert(r =~= Seq::<T>::empty());
        assert(g =~= Seq::<T>::empty());
    } else {
        let j = o[n - 1] as int;
        let g2 = g.remove(j);
        let o2 = Seq::new((n - 1) as nat, |i: int| if o[i] < j { o[i] } else { (o[i] - 1) as usize });
        let r2 = r.drop_last();
        assert forall|i: int| 0 <= i < n - 1 implies #[trigger] o2[i] < n - 1 && o[i] != j by {
            assert(o[i] != o[n - 1]);
        }
        assert forall|i: int, k: int| 0 <= i < k < n - 1 implies o2[i] != o2[k] by {
            assert(o[i] != o[k]);
            assert(o2[i] < n - 1 && o2[k] < n - 1);
        }
        assert forall|v: int| 0 <= v < n - 1 implies #[trigger] appears(o2, v) by {
            let w = if v < j { v } else { v + 1 };
            assert(appears(o, w));
            let i = choose|i: int| 0 <= i < o.len() && o[i] == w;
            assert(i != n - 1);
            assert(o2[i] == v);
        }
        assert(is_permutation(o2, n - 1));
        assert forall|i: int| 0 <= i < r2.len() implies #[trigger] r2[i] == g2[o2[i] as int] by {
            assert(o2[i] < n - 1 && o[i] != j);
        }
        assert(rearranged(g2, o2, r2));
        lemma_rearranged_multiset(g2, o2, r2);
        assert(r =~= r2.push(r[n - 1]));
        assert(r[n - 1] == g[j]);
        assert(g.to_multiset().count(g[j]) > 0);
        assert(g.to_multiset().remove(g[j]).insert(g[j]) =~= g.to_multiset());
    }
}

proof fn lemma_empty_multiset<T>(t: Seq<T>)
    requires
        t.len() == 0,
    ensures
        t.to_multiset() == Multiset::<T>::empty(),
{
    vstd::seq_lib::to_multiset_len(t);
    vstd::multiset::lemma_multiset_empty_len(t.to_multiset());
}

/// Multiset of the phase groups `0..m` of `s` taken together.
pub open spec fn groups_multiset<E>(s: Seq<(E, ScheduleSet)>, m: int) -> Multiset<(E, ScheduleSet)>
    decreases m,
{
    if m <= 0 {
        Multiset::empty()
    } else {
        groups_multiset(s, m - 1).add(phase_group(s, m - 1).to_multiset())
    }
}

proof fn lemma_groups_push<E>(s: Seq<(E, ScheduleSet)>, x: (E, ScheduleSet), m: int)
    requires
        0 <= m,
    ensures
        groups_multiset(s.push(x), m) == if set_index(x.1) < m {
            groups_multiset(s, m).insert(x)
        } else {
            groups_multiset(s, m)
        },
    decreases m,
{
    broadcast use vstd::seq_lib::to_multiset_build;
    broadcast use vstd::multiset::group_multiset_axioms;

    if m > 0 {
        lemma_groups_push(s, x, m - 1);
        assert(s.push(x).drop_last() =~= s);
        let prev = groups_multiset(s, m - 1);
        if set_index(x.1) == m - 1 {
            assert(phase_group(s.push(x), m - 1) == phase_group(s, m - 1).push(x));
            assert(groups_multiset(s.push(x), m) =~= groups_multiset(s, m).insert(x));
        } else {
            assert(phase_group(s.push(x), m - 1) == phase_group(s, m - 1));
            if set_index(x.1) < m - 1 {
                assert(groups_multiset(s.push(x), m) =~= groups_multiset(s, m).insert(x));
            } else {
                assert(groups_multiset(s.push(x), m) =~= groups_multiset(s, m));
            }
        }
    }
}

proof fn lemma_groups_cover<E>(s: Seq<(E, ScheduleSet)>)
    ensures
        groups_multiset(s, NUM_SETS as int) == s.to_multiset(),
    decreases s.len(),
{
    broadcast use vstd::seq_lib::to_multiset_build;
    broadcast use vstd::multiset::group_multiset_axioms;

    if s.len() == 0 {
        lemma_groups_empty(s, NUM_SETS as int);
        lemma_empty_multiset(s);
    } else {
        let s2 = s.drop_last();
        lemma_groups_cover(s2);
        lemma_groups_push(s2, s.last(), NUM_SETS as int);
        assert(s2.push(s.last()) =~= s);
    }
}

proof fn lemma_groups_empty<E>(s: Seq<(E, ScheduleSet)>, m: int)
    requires
        s.len() == 0,
    ensures
        groups_multiset(s, m) == Multiset::<(E, ScheduleSet)>::empty(),
    decreases m,
{
    broadcast use vstd::multiset::group_multiset_axioms;

    if m > 0 {
        lemma_groups_empty(s, m - 1);
        assert(phase_group(s, m - 1).len() == 0);
        lemma_empty_multiset(phase_group(s, m - 1));
        assert(groups_multiset(s, m) =~= Multiset::empty());
    }
}

proof fn lemma_groups_zero<E>(s: Seq<(E, ScheduleSet)>, m: int)
    requires
        m <= 0,
    ensures
        groups_multiset(s, m) == Multiset::<(E, ScheduleSet)>::empty(),
{
}

proof fn lemma_parts_multiset<S>(
    input: Seq<(StoredSystemEntry<S>, ScheduleSet)>,
    parts: Seq<Seq<(StoredSystemEntry<S>, ScheduleSet)>>,
    m: int,
)
    requires
        0 <= m <= parts.len(),
        forall|v: int| 0 <= v < m ==> (#[trigger] parts[v]).to_multiset() == phase_group(input, v).to_multiset(),
    ensures
        concat_parts(parts, m).to_multiset() == groups_multiset(input, m),
    decreases m,
{
    broadcast use vstd::seq_lib::lemma_multiset_commutative;
    broadcast use vstd::multiset::group_multiset_axioms;

    if m <= 0 {
        lemma_empty_multiset(concat_parts(parts, m));
        lemma_groups_zero(input, m);
    } else {
        lemma_parts_multiset(input, parts, m - 1);
        assert(parts[m - 1].to_multiset() == phase_group(input, m - 1).to_multiset());
    }
}

/// Organizing a schedule keeps every registered system exactly once: the
/// organized systems are the registered ones, rearranged.
pub proof fn lemma_organize_keeps_systems<S>(
    input: Seq<(StoredSystemEntry<S>, ScheduleSet)>,
    sorted: Seq<(StoredSystemEntry<S>, ScheduleSet)>,
    errors: Seq<ScheduleError>,
)
    requires
        organizes(input, sorted, errors),
    ensures
        sorted.to_multiset() == input.to_multiset(),
{
    let parts = choose|parts: Seq<Seq<(StoredSystemEntry<S>, ScheduleSet)>>| organized(input, parts, sorted, errors);
    assert forall|v: int| 0 <= v < NUM_SETS implies (#[trigger] parts[v]).to_multiset() == phase_group(input, v).to_multiset() by {
        let g = phase_group(input, v);
        assert(arranged_phase(g, parts[v]));
        if g.len() > 1 {
            let o = choose|o: Seq<usize>| {
                &&& is_topo_order(g, o)
                &&& rearranged(g, o, parts[v])
                &&& (crate::ordering::unconstrained(g) ==> crate::ordering::identity_order(o, g.len() as int))
            };
            lemma_rearranged_multiset(g, o, parts[v]);
        }
    }
    lemma_parts_multiset(input, parts, NUM_SETS as int);
    lemma_groups_cover(input);
}


proof fn lemma_setup_groups_push<E>(s: Seq<(E, ScheduleSetupSet)>, x: (E, ScheduleSetupSet))
    ensures
        setup_group(s.push(x), 0).to_multiset().add(setup_group(s.push(x), 1).to_multiset()).add(
            setup_group(s.push(x), 2).to_multiset(),
        ) == setup_group(s, 0).to_multiset().add(setup_group(s, 1).to_multiset()).add(
            setup_group(s, 2).to_multiset(),
        ).insert(x),
{
    broadcast use vstd::seq_lib::to_multiset_build;
    broadcast use vstd::multiset::group_multiset_axioms;

    assert(s.push(x).drop_last() =~= s);
    let a = setup_group(s.push(x), 0).to_multiset().add(setup_group(s.push(x), 1).to_multiset()).add(
        setup_group(s.push(x), 2).to_multiset(),
    );
    let b = setup_group(s, 0).to_multiset().add(setup_group(s, 1).to_multiset()).add(setup_group(s, 2).to_multiset());
    assert(a =~= b.insert(x));
}

/// Organizing the setup systems keeps every registered system exactly once.
pub proof fn lemma_setup_organize_keeps_systems<S>(
    input: Seq<(StoredSystemEntry<S>, ScheduleSetupSet)>,
    sorted: Seq<(StoredSystemEntry<S>, ScheduleSetupSet)>,
)
    requires
        sorted == setup_group(input, 0) + setup_group(input, 1) + setup_group(input, 2),
    ensures
        sorted.to_multiset() == input.to_multiset(),
{
    broadcast use vstd::seq_lib::lemma_multiset_commutative;

    lemma_setup_groups_cover(input);
}

proof fn lemma_setup_groups_cover<E>(s: Seq<(E, ScheduleSetupSet)>)
    ensures
        setup_group(s, 0).to_multiset().add(setup_group(s, 1).to_multiset()).add(setup_group(s, 2).to_multiset())
            == s.to_multiset(),
    decreases s.len(),
{
    broadcast use vstd::seq_lib::to_multiset_build;
    broadcast use vstd::multiset::group_multiset_axioms;

    if s.len() == 0 {
        lemma_empty_multiset(s);
        lemma_empty_multiset(setup_group(s, 0));
        lemma_empty_multiset(setup_group(s, 1));
        lemma_empty_multiset(setup_group(s, 2));
        assert(Multiset::<(E, ScheduleSetupSet)>::empty().add(Multiset::empty()).add(Multiset::empty()) =~= Multiset::empty());
    } else {
        let s2 = s.drop_last();
        lemma_setup_groups_cover(s2);
        lemma_setup_groups_push(s2, s.last());
        assert(s2.push(s.last()) =~= s);
    }
}

} // verus!
