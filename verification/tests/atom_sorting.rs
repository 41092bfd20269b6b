use mddem::atom_order::{bin_cell_index, bin_sort_permutation, gather, is_identity, remap_ghost_origins};

#[test]
fn cell_index_clamps_and_linearizes() {
    let counts = [2, 3, 4];
    assert_eq!(bin_cell_index(0, 0, 0, counts), 0);
    assert_eq!(bin_cell_index(1, 2, 3, counts), 1 * 12 + 2 * 4 + 3);
    assert_eq!(bin_cell_index(-5, 7, 9, counts), 0 * 12 + 2 * 4 + 3);
}

#[test]
fn sort_is_stable_within_a_bin() {
    let bins = [3u32, 1, 3, 0, 1];
    let perm = bin_sort_permutation(&bins, 5);
    assert_eq!(perm, vec![3, 1, 4, 0, 2]);
    assert!(!is_identity(&perm));
    assert!(is_identity(&bin_sort_permutation(&[0, 0, 1, 2], 4)));
}

#[test]
fn gather_applies_permutation() {
    let v = [10.0f64, 20.0, 30.0];
    assert_eq!(gather(&v, &[2, 0, 1]), vec![30.0, 10.0, 20.0]);
}

#[test]
fn ghost_origins_follow_their_atoms() {
    // local atoms 0..3 reordered as [2, 0, 1]; ghosts 3..6 point at locals 0, 2 and a ghost
    let perm = [2usize, 0, 1];
    let mut origin = vec![-1, -1, -1, 0, 2, 4];
    remap_ghost_origins(&mut origin, &perm, 3, 3);
    assert_eq!(origin, vec![-1, -1, -1, 1, 0, 4]);
}
