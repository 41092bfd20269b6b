use mddem::measure::sample_due;
use mddem::type_rdf::{count_of_type, rdf_ghost_partners, rdf_local_partners, rdf_write_due};

#[test]
fn same_type_pairs_run_from_lower_to_higher_index() {
    let types = [0u32, 1, 0, 0, 1];
    assert_eq!(rdf_local_partners(&types, 5, 0, 0, 0), vec![2, 3]);
    assert_eq!(rdf_local_partners(&types, 5, 2, 0, 0), vec![3]);
    assert_eq!(rdf_local_partners(&types, 5, 3, 0, 0), Vec::<usize>::new());
    // An atom of another type pairs with nothing.
    assert_eq!(rdf_local_partners(&types, 5, 1, 0, 0), Vec::<usize>::new());
}

#[test]
fn cross_type_pairs_run_from_type_i_to_type_j() {
    let types = [0u32, 1, 0, 0, 1];
    assert_eq!(rdf_local_partners(&types, 5, 0, 0, 1), vec![1, 4]);
    assert_eq!(rdf_local_partners(&types, 5, 2, 0, 1), vec![1, 4]);
    // Each cross pair is counted once, from its type_i atom.
    assert_eq!(rdf_local_partners(&types, 5, 1, 0, 1), Vec::<usize>::new());
    // Swapping the two types finds the same pairs from the other side.
    assert_eq!(rdf_local_partners(&types, 5, 1, 1, 0), vec![0, 2, 3]);
}

#[test]
fn ghost_pairs_count_in_either_orientation() {
    // Atoms 0..3 local, 3..6 ghosts.
    let types = [0u32, 1, 0, 1, 0, 1];
    assert_eq!(rdf_ghost_partners(&types, 3, 0, 0, 1), vec![3, 5]);
    assert_eq!(rdf_ghost_partners(&types, 3, 1, 0, 1), vec![4]);
    assert_eq!(rdf_ghost_partners(&types, 3, 0, 0, 0), vec![4]);
}

#[test]
fn counts_local_atoms_of_a_type() {
    let types = [0u32, 1, 0, 0, 1, 0];
    assert_eq!(count_of_type(&types, 5, 0), 3);
    assert_eq!(count_of_type(&types, 5, 1), 2);
    assert_eq!(count_of_type(&types, 0, 0), 0);
}

#[test]
fn rdf_sampling_and_writing_steps() {
    assert!(!sample_due(0, 100));
    assert!(sample_due(200, 100));
    assert!(!sample_due(150, 100));
    assert!(!sample_due(150, 0));
    assert!(rdf_write_due(1000, 1000, 3, 0));
    assert!(!rdf_write_due(1000, 1000, 0, 0));
    assert!(!rdf_write_due(1000, 1000, 3, 1));
    assert!(!rdf_write_due(0, 1000, 3, 0));
}
