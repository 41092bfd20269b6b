use mddem::neighbor::{
    advance_sort_counter, bin_candidates, build_bins, build_csr_from_pairs, default_sort_every, pairs, rebuild_needed,
};

#[test]
fn bins_are_grouped_by_cell_in_index_order() {
    let cells = [2u32, 0, 2, 1, 0];
    let (start, sorted, slot) = build_bins(&cells, 4);
    assert_eq!(start, vec![0, 2, 3, 5, 5]);
    assert_eq!(sorted, vec![1, 4, 3, 0, 2]);
    assert_eq!(slot, vec![3, 0, 4, 2, 1]);
}

#[test]
fn no_atoms_empty_layout() {
    let (start, sorted, slot) = build_bins(&[], 3);
    assert_eq!(start, vec![0, 0, 0, 0]);
    assert!(sorted.is_empty() && slot.is_empty());
}

#[test]
fn rebuild_rules() {
    // count changed or full rebuild requested
    assert!(rebuild_needed(3, 4, true, 0, true, 0, false));
    assert!(rebuild_needed(4, 4, false, 0, true, 0, false));
    assert!(rebuild_needed(0, 0, true, 0, true, 0, false));
    // displacement only
    assert!(!rebuild_needed(4, 4, true, 0, true, 100, false));
    assert!(rebuild_needed(4, 4, true, 0, true, 0, true));
    // every N steps with check
    assert!(rebuild_needed(4, 4, true, 10, true, 10, false));
    assert!(rebuild_needed(4, 4, true, 10, true, 3, true));
    // every N steps without check
    assert!(!rebuild_needed(4, 4, true, 10, false, 3, true));
    assert!(rebuild_needed(4, 4, true, 10, false, 12, false));
}

#[test]
fn sort_counter_wraps() {
    assert_eq!(default_sort_every(), 1000);
    assert_eq!(advance_sort_counter(0, 3), (1, false));
    assert_eq!(advance_sort_counter(2, 3), (0, true));
    assert_eq!(advance_sort_counter(7, 0), (8, false));
}

#[test]
fn csr_rows_keep_pair_order() {
    let pairs = [(1usize, 5usize), (0, 3), (1, 2), (4, 9), (0, 7)];
    let (offsets, indices) = build_csr_from_pairs(&pairs, 3);
    assert_eq!(offsets, vec![0, 2, 4, 4]);
    assert_eq!(indices, vec![3, 7, 5, 2]);
}

#[test]
fn csr_of_no_pairs() {
    let (offsets, indices) = build_csr_from_pairs(&[], 2);
    assert_eq!(offsets, vec![0, 0, 0]);
    assert!(indices.is_empty());
}

#[test]
fn candidates_are_later_atoms_of_own_cell_then_forward_cells() {
    // Cells along one axis; atoms 0..6 in cells [1, 0, 1, 2, 1, 3].
    let cells = [1u32, 0, 1, 2, 1, 3];
    let (start, sorted, slot) = build_bins(&cells, 4);
    assert_eq!(start, vec![0, 1, 4, 5, 6]);
    assert_eq!(sorted, vec![1, 0, 2, 4, 3, 5]);
    // Atom 0 (cell 1, first of its cell): atoms 2 and 4, then cell 2.
    assert_eq!(bin_candidates(0, &cells, &slot, &start, &sorted, &[1], true), vec![2, 4, 3]);
    // Atom 2 (cell 1, second): atom 4, then cell 2 and cell 3.
    assert_eq!(bin_candidates(2, &cells, &slot, &start, &sorted, &[1, 2], true), vec![4, 3, 5]);
    // Without the own cell only the stencil cells count.
    assert_eq!(bin_candidates(4, &cells, &slot, &start, &sorted, &[1], false), vec![3]);
    // The last atom of a cell has no later neighbour there.
    assert_eq!(bin_candidates(4, &cells, &slot, &start, &sorted, &[], true), Vec::<u32>::new());
}

#[test]
fn each_pair_is_found_from_one_side_only() {
    let cells = [1u32, 0, 1, 2, 1, 3];
    let (start, sorted, slot) = build_bins(&cells, 4);
    let stencil = [1i32];
    let mut found: Vec<(u32, u32)> = Vec::new();
    for i in 0..4usize {
        for j in bin_candidates(i, &cells, &slot, &start, &sorted, &stencil, true) {
            assert_ne!(j as usize, i);
            found.push((i as u32, j));
        }
    }
    for &(a, b) in &found {
        assert!(!found.contains(&(b, a)));
    }
}

#[test]
fn pair_iter_matches_manual() {
    // 3 local atoms: atom 0 -> [1, 2], atom 1 -> [2], atom 2 -> []
    let neighbor_offsets = vec![0u32, 2, 3, 3];
    let neighbor_indices = vec![1u32, 2, 2];
    let found: Vec<(usize, usize)> = pairs(&neighbor_offsets, &neighbor_indices, 3);
    assert_eq!(found, vec![(0, 1), (0, 2), (1, 2)]);
}

#[test]
fn pair_iter_empty() {
    let neighbor_offsets = vec![0u32, 0, 0];
    let neighbor_indices: Vec<u32> = vec![];
    let found = pairs(&neighbor_offsets, &neighbor_indices, 2);
    assert!(found.is_empty());
    // Also test zero local atoms
    let found2 = pairs(&neighbor_offsets, &neighbor_indices, 0);
    assert!(found2.is_empty());
}

#[test]
fn walking_a_built_list_gives_back_the_local_pairs() {
    let list = [(1usize, 4usize), (0, 2), (5, 0), (1, 3), (0, 1)];
    let (offsets, indices) = build_csr_from_pairs(&list, 3);
    assert_eq!(pairs(&offsets, &indices, 3), vec![(0, 2), (0, 1), (1, 4), (1, 3)]);
}

#[test]
fn csr_from_rows_lays_rows_one_after_the_other() {
    let rows = vec![vec![2u32, 5], vec![], vec![4]];
    let (offsets, indices) = mddem::neighbor::csr_from_rows(&rows);
    assert_eq!(offsets, vec![0, 2, 2, 3]);
    assert_eq!(indices, vec![2, 5, 4]);
    let (o0, i0) = mddem::neighbor::csr_from_rows(&Vec::new());
    assert_eq!(o0, vec![0]);
    assert!(i0.is_empty());
}
