use mddem::ordering::{ScheduleError, StoredSystemEntry};
use mddem::organize;
use mddem::organize::{organize_setup_systems, organize_update_systems, remove_update_system_by_name, schedule_warnings};
use mddem::schedule::{set_to_value, setup_set_to_value, verlet_schedule_warnings, ScheduleSet, ScheduleSetupSet};
use mddem::scheduler::SystemDescriptor;

type Entry = (StoredSystemEntry<&'static str>, ScheduleSet);

fn plain(name: &'static str, set: ScheduleSet) -> Entry {
    (SystemDescriptor::from_system(name).into_stored(name.to_string()), set)
}

fn described(d: SystemDescriptor<&'static str>, set: ScheduleSet) -> Entry {
    let name = d.system.to_string();
    (d.into_stored(name), set)
}

fn order(systems: &[Entry]) -> Vec<&'static str> {
    systems.iter().map(|(e, _)| e.system).collect()
}

// ── verlet_schedule_warnings ───────────────────────────────────────────────

#[test]
fn warns_no_force_systems() {
    let phases = vec!["InitialIntegration", "FinalIntegration"];
    let warnings = verlet_schedule_warnings(&phases);
    assert!(warnings.iter().any(|w| w.contains("Force")), "Expected warning about missing Force systems, got: {:?}", warnings);
}

#[test]
fn warns_asymmetric_verlet() {
    let phases = vec!["InitialIntegration", "Force"];
    let warnings = verlet_schedule_warnings(&phases);
    assert!(warnings.iter().any(|w| w.contains("asymmetric")), "Expected warning about asymmetric Verlet, got: {:?}", warnings);
}

#[test]
fn warns_no_integrator() {
    let phases = vec!["Force", "PostForce", "Exchange"];
    let warnings = verlet_schedule_warnings(&phases);
    assert!(warnings.iter().any(|w| w.contains("no integrator")), "Expected warning about no integrator, got: {:?}", warnings);
}

#[test]
fn no_warnings_for_normal_schedule() {
    let phases = vec!["InitialIntegration", "Force", "FinalIntegration"];
    let warnings = verlet_schedule_warnings(&phases);
    assert!(warnings.is_empty(), "Expected no warnings, got: {:?}", warnings);
}

#[test]
fn no_warnings_for_custom_schedule() {
    let phases = vec!["PhaseA", "PhaseB", "PhaseC"];
    let warnings = verlet_schedule_warnings(&phases);
    assert!(warnings.is_empty(), "Expected no warnings for custom schedule, got: {:?}", warnings);
}

// ── organizing the run-loop systems ────────────────────────────────────────

#[test]
fn remove_update_system_by_label() {
    let mut systems = vec![described(SystemDescriptor::from_system("system_requiring_resource").label("my_system"), ScheduleSet::Force)];
    assert_eq!(systems.len(), 1);
    organize::remove_update_system_by_label(&mut systems, "my_system");
    assert_eq!(systems.len(), 0);
}

#[test]
fn remove_update_system_by_function() {
    let mut systems = vec![plain("dummy_system", ScheduleSet::Force)];
    assert_eq!(systems.len(), 1);
    remove_update_system_by_name(&mut systems, "dummy_system");
    assert_eq!(systems.len(), 0);
}

#[test]
fn requires_label_passes_when_present() {
    let systems = vec![
        described(SystemDescriptor::from_system("force_a").label("force_a"), ScheduleSet::Force),
        described(SystemDescriptor::from_system("force_b").label("force_b").requires_label("force_a"), ScheduleSet::Force),
    ];
    let (organized, errors) = organize_update_systems(systems).unwrap();
    assert!(errors.is_empty());
    assert_eq!(organized.len(), 2);
}

#[test]
fn requires_label_passes_with_run_if() {
    let gated = SystemDescriptor::from_system("force_b").label("force_b").requires_label("force_a").run_if(true);
    let name = gated.system.system.to_string();
    let entry = gated.into_stored(name);
    let systems = vec![
        (SystemDescriptor::from_system(("force_a", true)).label("force_a").into_stored("force_a".to_string()), ScheduleSet::Force),
        (StoredSystemEntry {
            system: (entry.system.system, entry.system.condition),
            name: entry.name,
            label: entry.label,
            befores: entry.befores,
            afters: entry.afters,
            requires: entry.requires,
        }, ScheduleSet::Force),
    ];
    let (_, errors) = organize_update_systems(systems).unwrap();
    assert!(errors.is_empty());
}

#[test]
fn requires_label_reports_missing_label() {
    let systems = vec![described(SystemDescriptor::from_system("force_b").label("force_b").requires_label("force_a"), ScheduleSet::Force)];
    let (_, errors) = organize_update_systems(systems).unwrap();
    assert_eq!(
        errors,
        vec![ScheduleError::MissingLabel { system: "force_b".to_string(), set: ScheduleSet::Force, label: "force_a".to_string() }]
    );
}

#[test]
fn requires_label_in_other_phase_does_not_count() {
    let systems = vec![
        described(SystemDescriptor::from_system("force_a").label("force_a"), ScheduleSet::PreForce),
        described(SystemDescriptor::from_system("force_b").requires_label("force_a"), ScheduleSet::Force),
    ];
    let (_, errors) = organize_update_systems(systems).unwrap();
    assert_eq!(errors.len(), 1);
}

fn warnings_for(systems: Vec<Entry>) -> Vec<String> {
    let (organized, _) = organize_update_systems(systems).unwrap();
    schedule_warnings(&organized)
}

#[test]
fn validate_warns_no_force_systems() {
    let warnings = warnings_for(vec![plain("force_a", ScheduleSet::InitialIntegration), plain("force_b", ScheduleSet::FinalIntegration)]);
    assert!(warnings.iter().any(|w| w.contains("Force")), "Expected warning about missing Force systems, got: {:?}", warnings);
}

#[test]
fn validate_warns_asymmetric_verlet() {
    let warnings = warnings_for(vec![plain("force_a", ScheduleSet::InitialIntegration), plain("force_b", ScheduleSet::Force)]);
    assert!(warnings.iter().any(|w| w.contains("asymmetric")), "Expected warning about asymmetric Verlet, got: {:?}", warnings);
}

#[test]
fn validate_warns_no_integrator() {
    let warnings = warnings_for(vec![
        plain("sys_a", ScheduleSet::Force),
        plain("sys_b", ScheduleSet::PostForce),
        plain("sys_c", ScheduleSet::Exchange),
    ]);
    assert!(warnings.iter().any(|w| w.contains("no integrator")), "Expected warning about no integrator, got: {:?}", warnings);
}

#[test]
fn validate_no_warnings_for_normal_schedule() {
    let warnings = warnings_for(vec![
        plain("force_a", ScheduleSet::InitialIntegration),
        plain("force_b", ScheduleSet::Force),
        plain("force_a", ScheduleSet::FinalIntegration),
    ]);
    assert!(warnings.is_empty(), "Expected no warnings, got: {:?}", warnings);
}

#[test]
fn empty_schedule_has_no_warnings() {
    assert!(warnings_for(Vec::new()).is_empty());
}

#[test]
fn phases_run_in_order_and_constraints_are_honoured() {
    let systems = vec![
        plain("final", ScheduleSet::FinalIntegration),
        described(SystemDescriptor::from_system("pair").label("pair").after("bonds"), ScheduleSet::Force),
        described(SystemDescriptor::from_system("bonds").label("bonds"), ScheduleSet::Force),
        described(SystemDescriptor::from_system("walls").before("pair"), ScheduleSet::Force),
        plain("initial", ScheduleSet::InitialIntegration),
    ];
    let (organized, errors) = organize_update_systems(systems).unwrap();
    assert!(errors.is_empty());
    assert_eq!(order(&organized), vec!["initial", "bonds", "walls", "pair", "final"]);
}

#[test]
fn unconstrained_systems_keep_registration_order() {
    let systems = vec![plain("b", ScheduleSet::Force), plain("a", ScheduleSet::Force), plain("c", ScheduleSet::Force)];
    let (organized, _) = organize_update_systems(systems).unwrap();
    assert_eq!(order(&organized), vec!["b", "a", "c"]);
}

#[test]
fn cycle_is_reported() {
    let systems = vec![
        described(SystemDescriptor::from_system("x").label("x").before("y"), ScheduleSet::PreForce),
        described(SystemDescriptor::from_system("y").label("y").before("x"), ScheduleSet::PreForce),
    ];
    assert!(matches!(organize_update_systems(systems), Err(ScheduleError::Cycle { set: ScheduleSet::PreForce })));
}

#[test]
fn setup_systems_grouped_by_phase() {
    let systems = vec![
        (SystemDescriptor::from_system("post").into_stored("post".to_string()), ScheduleSetupSet::PostSetup),
        (SystemDescriptor::from_system("mid").into_stored("mid".to_string()), ScheduleSetupSet::Setup),
        (SystemDescriptor::from_system("pre").into_stored("pre".to_string()), ScheduleSetupSet::PreSetup),
        (SystemDescriptor::from_system("mid2").into_stored("mid2".to_string()), ScheduleSetupSet::Setup),
    ];
    let sorted = organize_setup_systems(systems);
    let names: Vec<&str> = sorted.iter().map(|(e, _)| e.system).collect();
    assert_eq!(names, vec!["pre", "mid", "mid2", "post"]);
}

#[test]
fn phase_values() {
    assert_eq!(set_to_value(&ScheduleSet::Setup), 0);
    assert_eq!(set_to_value(&ScheduleSet::Force), 9);
    assert_eq!(set_to_value(&ScheduleSet::PostFinalIntegration), 13);
    assert_eq!(setup_set_to_value(&ScheduleSetupSet::PostSetup), 2);
    assert_eq!(ScheduleSet::PreNeighbor.name(), "PreNeighbor");
}

#[test]
fn organizing_keeps_every_system_once() {
    let systems = vec![
        plain("e", ScheduleSet::PostForce),
        described(SystemDescriptor::from_system("b").label("b").after("a"), ScheduleSet::Force),
        described(SystemDescriptor::from_system("a").label("a"), ScheduleSet::Force),
        plain("c", ScheduleSet::Setup),
        plain("d", ScheduleSet::Force),
    ];
    let (organized, _) = organize_update_systems(systems).unwrap();
    let mut names = order(&organized);
    assert_eq!(names, vec!["c", "a", "d", "b", "e"]);
    names.sort();
    assert_eq!(names, vec!["a", "b", "c", "d", "e"]);
}
