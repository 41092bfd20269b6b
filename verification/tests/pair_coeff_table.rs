use mddem::pair_coeff::PairCoeffTable;

#[test]
fn test_pair_coeff_table_symmetry() {
    let mut table = PairCoeffTable::new(3, 0.0f64);
    table.set(0, 1, 1.5);
    assert_eq!(*table.get(0, 1), 1.5);
    assert_eq!(*table.get(1, 0), 1.5);
}

#[test]
fn test_pair_coeff_table_diagonal() {
    let mut table = PairCoeffTable::new(2, 0.0f64);
    table.set(0, 0, 3.0);
    table.set(1, 1, 5.0);
    assert_eq!(*table.get(0, 0), 3.0);
    assert_eq!(*table.get(1, 1), 5.0);
}

#[test]
fn test_pair_coeff_table_default() {
    let table = PairCoeffTable::new(2, 42.0f64);
    assert_eq!(*table.get(0, 0), 42.0);
    assert_eq!(*table.get(0, 1), 42.0);
}

#[test]
fn set_leaves_other_pairs_alone() {
    let mut table = PairCoeffTable::new(3, 0u32);
    table.set(2, 0, 7);
    assert_eq!(*table.get(0, 2), 7);
    assert_eq!(*table.get(2, 0), 7);
    assert_eq!(*table.get(1, 1), 0);
    assert_eq!(*table.get(0, 1), 0);
    assert_eq!(table.ntypes(), 3);
}
