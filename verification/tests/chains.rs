use mddem::angle::AngleEntry;
use mddem::polymer::{
    chain_ends, default_chain_length, default_equilibration_steps, default_init_style,
    default_measure_interval, default_n_chains, default_output_interval, default_seed,
    discover_chains_from_bonds, is_measure_step, resolve_chain, tag_index_map, ChainStatsConfig,
};

/// Partner lists of `n` atoms (tags 0..n) for the undirected bonds `pairs`.
fn bonds_of(n: usize, pairs: &[(u32, u32)]) -> Vec<Vec<u32>> {
    let mut bonds = vec![Vec::new(); n];
    for &(a, b) in pairs {
        bonds[a as usize].push(b);
        bonds[b as usize].push(a);
    }
    bonds
}

#[test]
fn discover_chains_finds_linear_chain() {
    // A linear chain of 5 atoms with bonds: 0-1-2-3-4
    let tags: Vec<u32> = (0..5).collect();
    let bonds = bonds_of(5, &[(0, 1), (1, 2), (2, 3), (3, 4)]);
    let chains = discover_chains_from_bonds(&tags, &bonds, 5);
    assert_eq!(chains.len(), 1, "Should discover exactly 1 chain");
    assert_eq!(chains[0].len(), 5, "Chain should have 5 beads");
    assert!(
        (chains[0][0] == 0 && chains[0][4] == 4) || (chains[0][0] == 4 && chains[0][4] == 0),
        "Chain should go from endpoint to endpoint: {:?}",
        chains[0]
    );
}

#[test]
fn discover_chains_finds_two_separate_chains() {
    // Two separate chains: 0-1-2 and 3-4-5
    let tags: Vec<u32> = (0..6).collect();
    let bonds = bonds_of(6, &[(0, 1), (1, 2), (3, 4), (4, 5)]);
    let chains = discover_chains_from_bonds(&tags, &bonds, 6);
    assert_eq!(chains.len(), 2, "Should discover 2 chains, got {}", chains.len());
}

#[test]
fn chains_start_at_smallest_end_and_walk_in_order() {
    let tags: Vec<u32> = (0..5).collect();
    let bonds = bonds_of(5, &[(3, 1), (1, 4), (4, 0), (0, 2)]);
    let chains = discover_chains_from_bonds(&tags, &bonds, 5);
    assert_eq!(chains, vec![vec![2, 0, 4, 1, 3]]);
}

#[test]
fn no_atoms_no_chains() {
    assert!(discover_chains_from_bonds(&[], &[], 0).is_empty());
    let tags: Vec<u32> = (0..2).collect();
    let bonds = bonds_of(2, &[(0, 1)]);
    assert!(discover_chains_from_bonds(&tags, &bonds, 0).is_empty());
}

#[test]
fn ring_has_no_ends_and_no_chains() {
    let tags: Vec<u32> = (0..3).collect();
    let bonds = bonds_of(3, &[(0, 1), (1, 2), (2, 0)]);
    assert!(chain_ends(&tags, &bonds, 3).is_empty());
    assert!(discover_chains_from_bonds(&tags, &bonds, 3).is_empty());
}

#[test]
fn chain_ends_are_sorted_and_unique() {
    let tags = vec![10u32, 4, 7, 2];
    let bonds = vec![vec![4], vec![10], vec![2], vec![7]];
    assert_eq!(chain_ends(&tags, &bonds, 4), vec![2, 4, 7, 10]);
    let chains = discover_chains_from_bonds(&tags, &bonds, 4);
    assert_eq!(chains, vec![vec![2, 7], vec![4, 10]]);
}

#[test]
fn polymer_defaults() {
    assert_eq!(default_n_chains(), 1);
    assert_eq!(default_chain_length(), 50);
    assert_eq!(default_init_style(), "random_walk");
    assert_eq!(default_seed(), 42);
    assert_eq!(default_measure_interval(), 100);
    assert_eq!(default_output_interval(), 1000);
    assert_eq!(default_equilibration_steps(), 0);
    let c = ChainStatsConfig::default();
    assert_eq!((c.measure_interval, c.output_interval, c.equilibration_steps), (100, 1000, 0));
}

#[test]
fn measurement_steps() {
    let c = ChainStatsConfig { measure_interval: 10, output_interval: 100, equilibration_steps: 25 };
    assert!(!is_measure_step(&c, 0, 0));
    assert!(!is_measure_step(&c, 20, 0));
    assert!(is_measure_step(&c, 30, 0));
    assert!(!is_measure_step(&c, 35, 0));
    assert!(!is_measure_step(&c, 30, 1));
    let off = ChainStatsConfig { measure_interval: 0, ..c };
    assert!(!is_measure_step(&off, 30, 0));
}

#[test]
fn tag_lookup_and_chain_resolution() {
    let tags = [5u32, 2, 9];
    let map = tag_index_map(&tags, 3);
    assert_eq!(map.len(), 10);
    assert_eq!(map[5], 0);
    assert_eq!(map[2], 1);
    assert_eq!(map[9], 2);
    assert_eq!(map[3], usize::MAX);
    assert_eq!(resolve_chain(&map, &vec![2, 5, 9]), Some(vec![1, 0, 2]));
    assert_eq!(resolve_chain(&map, &vec![2, 3]), None);
}

#[test]
fn created_chains_are_rediscovered() {
    let (chains, bonds) = mddem::polymer::chain_topology(3, 4);
    assert_eq!(chains, vec![vec![0, 1, 2, 3], vec![4, 5, 6, 7], vec![8, 9, 10, 11]]);
    assert_eq!(bonds[0], vec![1]);
    assert_eq!(bonds[5], vec![4, 6]);
    assert_eq!(bonds[7], vec![6]);
    let tags: Vec<u32> = (0..12).collect();
    assert_eq!(discover_chains_from_bonds(&tags, &bonds, 12), chains);
}

#[test]
fn single_bead_chains_have_no_bonds() {
    let (chains, bonds) = mddem::polymer::chain_topology(2, 1);
    assert_eq!(chains, vec![vec![0], vec![1]]);
    assert!(bonds.iter().all(|b| b.is_empty()));
    assert!(discover_chains_from_bonds(&[0, 1], &bonds, 2).is_empty());
}

#[test]
fn inner_beads_carry_one_angle_over_their_neighbours() {
    let angles = mddem::polymer::chain_angles(2, 4);
    assert_eq!(angles.len(), 8);
    assert!(angles[0].is_empty() && angles[3].is_empty() && angles[4].is_empty() && angles[7].is_empty());
    assert_eq!(angles[1], vec![AngleEntry { tag_i: 0, tag_k: 2, angle_type: 0 }]);
    assert_eq!(angles[6], vec![AngleEntry { tag_i: 5, tag_k: 7, angle_type: 0 }]);
    // Chains of two beads have no angles.
    assert!(mddem::polymer::chain_angles(3, 2).iter().all(|a| a.is_empty()));
}

#[test]
fn chains_without_beads_are_empty() {
    let (chains, bonds) = mddem::polymer::chain_topology(3, 0);
    assert_eq!(chains, vec![Vec::<u32>::new(), Vec::new(), Vec::new()]);
    assert!(bonds.is_empty());
    assert!(mddem::polymer::chain_angles(3, 0).is_empty());
}
