use mddem::ordering::StoredSystemEntry;
use mddem::schedule::ScheduleSet;
use mddem::schedule_graph::{
    cluster_chain_edges, constraint_edges, run_loop_edge, set_runs, short_name, start_run_edge, within_cluster_edges,
};
use mddem::scheduler::SystemDescriptor;

type Entry = (StoredSystemEntry<&'static str>, ScheduleSet);

fn described(d: SystemDescriptor<&'static str>, set: ScheduleSet) -> Entry {
    let name = d.system.to_string();
    (d.into_stored(name), set)
}

#[test]
fn runs_group_consecutive_equal_phases() {
    assert_eq!(set_runs(&[3, 3, 5, 5, 5, 3]), vec![(0, 1), (2, 4), (5, 5)]);
    assert_eq!(set_runs(&[7]), vec![(0, 0)]);
    assert_eq!(set_runs(&[]), Vec::<(usize, usize)>::new());
}

#[test]
fn blue_edges_follow_run_order() {
    let sets = [3u32, 3, 5, 5, 5, 3];
    let runs = set_runs(&sets);
    assert_eq!(cluster_chain_edges(&runs), vec![(1, 2), (4, 5)]);
    assert_eq!(within_cluster_edges(&sets), vec![(0, 1), (2, 3), (3, 4)]);
    assert_eq!(run_loop_edge(&runs), Some((5, 0)));
    assert_eq!(run_loop_edge(&runs[..1]), None);
    assert_eq!(start_run_edge(&[(0, 2)], &runs), Some((2, 0)));
    assert_eq!(start_run_edge(&[], &runs), None);
    assert_eq!(cluster_chain_edges(&[]), Vec::<(usize, usize)>::new());
}

#[test]
fn red_edges_resolve_labels_to_their_last_carrier() {
    let systems = vec![
        described(SystemDescriptor::from_system("a").label("x").before("y"), ScheduleSet::Force),
        described(SystemDescriptor::from_system("b").label("y").after("x").after("missing"), ScheduleSet::Force),
        described(SystemDescriptor::from_system("c").label("x"), ScheduleSet::Force),
    ];
    // "x" names system 2 (the last carrier), "y" names system 1.
    assert_eq!(constraint_edges(&systems), vec![(0, 1, true), (2, 1, false)]);
}

#[test]
fn short_names_keep_the_last_two_components() {
    assert_eq!(short_name("mddem_neighbor::lib::bin_neighbor_list"), "lib::bin_neighbor_list");
    assert_eq!(short_name("a::b"), "a::b");
    assert_eq!(short_name("plain"), "plain");
    assert_eq!(short_name(""), "");
    assert_eq!(short_name("a::b::c::d"), "c::d");
}
