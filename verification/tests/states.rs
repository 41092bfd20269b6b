use mddem::fire::{default_n_delay, fire_step, FireAction, FireCounters, FireMinPlugin};
use mddem::scheduler::{apply_state_transitions, in_state, ConfigSnippets, CurrentState, NextState, SystemDescriptor};
use mddem::thermostat;

#[derive(Clone, Copy, PartialEq, Debug)]
enum Phase {
    Settle,
    Produce,
}

#[test]
fn transition_applies_once() {
    let mut current = CurrentState(Phase::Settle);
    let mut next = NextState(None);
    apply_state_transitions(&mut current, &mut next);
    assert_eq!(current.0, Phase::Settle);
    next.set(Phase::Produce);
    let cond = in_state(Phase::Produce);
    assert!(!cond.evaluate(&current));
    apply_state_transitions(&mut current, &mut next);
    assert_eq!(current.0, Phase::Produce);
    assert!(next.0.is_none());
    assert!(cond.evaluate(&current));
    next.set(Phase::Settle);
    next.clear();
    apply_state_transitions(&mut current, &mut next);
    assert_eq!(current.0, Phase::Produce);
}

#[test]
fn descriptor_collects_metadata() {
    let d = SystemDescriptor::from_system(7u8).label("a").before("b").after("c").after("d").requires_label("e");
    assert_eq!(d.label.as_deref(), Some("a"));
    assert_eq!(d.befores, vec!["b".to_string()]);
    assert_eq!(d.afters, vec!["c".to_string(), "d".to_string()]);
    assert_eq!(d.requires, vec!["e".to_string()]);
    let g = d.run_if(false);
    assert_eq!(g.system.system, 7);
    assert!(!g.system.condition);
    let e = g.into_stored("sys".to_string());
    assert_eq!(e.name, "sys");
    assert_eq!(e.label.as_deref(), Some("a"));
}

#[test]
fn plugin_settings() {
    assert!(FireMinPlugin::new().stage.is_none());
    assert_eq!(FireMinPlugin::for_stage("minimize").stage.as_deref(), Some("minimize"));
    assert_eq!(default_n_delay(), 5);
    assert_eq!(thermostat::default_seed(), 12345);
    let mut s = ConfigSnippets { snippets: Vec::new() };
    s.add("[a]".to_string());
    s.add("[b]".to_string());
    assert_eq!(s.snippets, vec!["[a]".to_string(), "[b]".to_string()]);
}

#[test]
fn fire_state_machine() {
    let mut c = FireCounters { steps_since_negative: 0, iteration: 0, converged: false };
    let mut advance = false;
    for k in 1..=5 {
        assert_eq!(fire_step(&mut c, &mut advance, false, true, 5, true), FireAction::Downhill { grow: false });
        assert_eq!(c.steps_since_negative, k);
    }
    assert_eq!(fire_step(&mut c, &mut advance, false, true, 5, true), FireAction::Downhill { grow: true });
    assert_eq!(fire_step(&mut c, &mut advance, false, false, 5, true), FireAction::Uphill);
    assert_eq!(c.steps_since_negative, 0);
    assert!(!advance);
    assert_eq!(fire_step(&mut c, &mut advance, true, false, 5, true), FireAction::Converge);
    assert!(c.converged && advance);
    assert_eq!(c.iteration, 8);
    assert_eq!(fire_step(&mut c, &mut advance, false, true, 5, true), FireAction::Idle);
    assert_eq!(c.iteration, 8);

    let mut d = FireCounters { steps_since_negative: 3, iteration: 0, converged: false };
    let mut adv = false;
    assert_eq!(fire_step(&mut d, &mut adv, true, true, 5, false), FireAction::Converge);
    assert!(!adv);
}
