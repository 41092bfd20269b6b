use mddem::run::{
    ignored_overrides, output_due, set_stage_name, stage_end_save_due, thermo_due,
    default_steps, default_thermo, run_read_input, update_cycle, validate_stages, RunConfig, RunState, StageConfig,
    StageStart, StageValidationError,
};
use mddem::scheduler::{SchedulerManager, SchedulerState};

fn stage(name: Option<&str>, steps: u32, skip: bool) -> StageConfig {
    StageConfig { name: name.map(|n| n.to_string()), steps, skip, ..Default::default() }
}

#[test]
fn defaults() {
    assert_eq!(default_steps(), 1000);
    assert_eq!(default_thermo(), 100);
    let c = RunConfig::default();
    assert_eq!(c.stages.len(), 1);
    assert_eq!(c.stages[0].steps, 1000);
    let r = RunState::new();
    assert_eq!(r.total_cycle, 0);
    let m = SchedulerManager::new();
    assert_eq!(m.state, SchedulerState::Setup);
    assert_eq!(m.index, 0);
}

#[test]
fn stage_runs_its_steps_then_moves_on() {
    let config = RunConfig { stages: vec![stage(None, 3, false), stage(None, 1, false)] };
    let mut run = RunState::new();
    let mut mgr = SchedulerManager::new();
    assert_eq!(run_read_input(&config, &mgr, &mut run), StageStart::Started);
    mgr.state = SchedulerState::Run;
    for _ in 0..2 {
        update_cycle(&mut run, &mut mgr, &config);
        assert_eq!(mgr.index, 0);
        assert_eq!(mgr.state, SchedulerState::Run);
    }
    update_cycle(&mut run, &mut mgr, &config);
    assert_eq!(mgr.index, 1);
    assert_eq!(mgr.state, SchedulerState::Setup);
    assert_eq!(run.total_cycle, 3);
    assert_eq!(run.cycle_count, vec![3]);

    assert_eq!(run_read_input(&config, &mgr, &mut run), StageStart::Started);
    mgr.state = SchedulerState::Run;
    update_cycle(&mut run, &mut mgr, &config);
    assert_eq!(mgr.state, SchedulerState::End);
    assert_eq!(run.total_cycle, 4);
}

#[test]
fn skipped_stage_runs_nothing() {
    let config = RunConfig { stages: vec![stage(None, 50, true), stage(None, 5, false)] };
    let mut run = RunState::new();
    let mut mgr = SchedulerManager::new();
    assert_eq!(run_read_input(&config, &mgr, &mut run), StageStart::Skipped);
    assert_eq!(run.cycle_remaining, vec![0]);
    update_cycle(&mut run, &mut mgr, &config);
    assert_eq!(mgr.index, 1);
    assert_eq!(mgr.state, SchedulerState::Setup);
    assert_eq!(run.total_cycle, 0);
}

#[test]
fn advance_request_ends_stage_early() {
    let config = RunConfig { stages: vec![stage(None, 100, false)] };
    let mut run = RunState::new();
    let mut mgr = SchedulerManager::new();
    run_read_input(&config, &mgr, &mut run);
    mgr.advance_requested = true;
    update_cycle(&mut run, &mut mgr, &config);
    assert_eq!(mgr.state, SchedulerState::End);
    assert!(!mgr.advance_requested);
    assert_eq!(run.cycle_count, vec![1]);
}

#[test]
fn no_stage_past_the_last() {
    let config = RunConfig { stages: vec![stage(None, 1, false)] };
    let mut run = RunState::new();
    let mut mgr = SchedulerManager::new();
    mgr.index = 1;
    assert_eq!(run_read_input(&config, &mgr, &mut run), StageStart::NoStage);
    assert!(run.cycle_count.is_empty());
}

#[test]
fn stage_names_validated_at_first_stage() {
    let config = RunConfig { stages: vec![stage(Some("settle"), 10, false), stage(Some("prod"), 10, false)] };
    assert_eq!(validate_stages(&config, &["settle", "prod"], 0), Ok(()));
    assert_eq!(
        validate_stages(&config, &["settle"], 0),
        Err(StageValidationError::CountMismatch { stages: 2, expected: 1 })
    );
    assert_eq!(
        validate_stages(&config, &["settle", "production"], 0),
        Err(StageValidationError::NameMismatch { index: 1, found: "prod".to_string(), expected: "production".to_string() })
    );
    assert_eq!(validate_stages(&config, &["a"], 1), Ok(()));
    let unnamed = RunConfig { stages: vec![stage(None, 10, false)] };
    assert_eq!(
        validate_stages(&unnamed, &["settle"], 0),
        Err(StageValidationError::MissingName { index: 0, expected: "settle".to_string() })
    );
}

#[test]
fn stage_name_copied_into_manager() {
    let config = RunConfig { stages: vec![stage(Some("settle"), 10, false), stage(None, 10, false)] };
    let mut mgr = SchedulerManager::new();
    assert!(set_stage_name(&config, &mut mgr));
    assert_eq!(mgr.stage_name.as_deref(), Some("settle"));
    mgr.index = 1;
    assert!(set_stage_name(&config, &mut mgr));
    assert!(mgr.stage_name.is_none());
    mgr.index = 2;
    mgr.stage_name = Some("kept".to_string());
    assert!(!set_stage_name(&config, &mut mgr));
    assert_eq!(mgr.stage_name.as_deref(), Some("kept"));
}

#[test]
fn later_stage_first_stage_only_overrides_are_reported() {
    let keys = vec!["thermostat".to_string(), "comm".to_string(), "lattice".to_string()];
    assert!(ignored_overrides(0, &keys).is_empty());
    let ignored = ignored_overrides(2, &keys);
    assert_eq!(
        ignored,
        vec![("lattice", "lattice insertion (fcc_insert)"), ("comm", "communicator setup (comm_read_input)")]
    );
    assert!(ignored_overrides(1, &vec!["thermostat".to_string()]).is_empty());
}

#[test]
fn output_intervals() {
    assert!(output_due(None, 10, 20));
    assert!(!output_due(None, 10, 25));
    assert!(output_due(Some(5), 10, 25));
    assert!(!output_due(Some(0), 10, 20));
    assert!(!output_due(None, 0, 0));
    assert!(thermo_due(0, 0));
    assert!(!thermo_due(3, 0));
    assert!(thermo_due(300, 100));
}

#[test]
fn stage_end_save_on_last_step_or_advance() {
    let mut s = stage(Some("a"), 3, false);
    s.save_at_end = true;
    let config = RunConfig { stages: vec![s] };
    let mut run = RunState::new();
    let mut mgr = SchedulerManager::new();
    run_read_input(&config, &mgr, &mut run);
    assert!(!stage_end_save_due(&config, &run, &mgr));
    run.cycle_count[0] = 2;
    assert!(stage_end_save_due(&config, &run, &mgr));
    run.cycle_count[0] = 1;
    mgr.advance_requested = true;
    assert!(stage_end_save_due(&config, &run, &mgr));
    let plain = RunConfig { stages: vec![stage(None, 3, false)] };
    assert!(!stage_end_save_due(&plain, &run, &mgr));
}
