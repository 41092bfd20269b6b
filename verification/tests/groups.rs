use mddem::group::{find_group, group_mask, registered_group_names};

/// Region flags for a z-slab `[lo, hi]`, as the caller evaluates them per atom.
fn in_z_slab(z: &[f64], lo: f64, hi: f64) -> Vec<bool> {
    z.iter().map(|&v| !(v < lo) && !(v > hi)).collect()
}

#[test]
fn test_all_group_always_exists() {
    let (names, skipped) = registered_group_names(&vec![]);
    assert_eq!(names, vec!["all".to_string()]);
    assert_eq!(skipped, 0);
    let i = find_group(&names, "all").unwrap();
    let (mask, count) = group_mask(true, &None, &[], &[], 2);
    assert_eq!(i, 0);
    assert_eq!(count, 2);
    assert!(mask.iter().all(|&m| m));
}

#[test]
fn test_type_filter() {
    let types = [0u32, 1, 0];
    let region = vec![true; 3];
    let (mask, count) = group_mask(false, &Some(vec![0]), &types, &region, 3);
    assert_eq!(count, 2);
    assert_eq!(mask, vec![true, false, true]);
}

#[test]
fn test_region_filter() {
    let types = [0u32, 0, 0];
    let region = in_z_slab(&[1.0, 3.0, 5.0], 0.0, 4.0);
    let (mask, count) = group_mask(false, &None, &types, &region, 3);
    assert_eq!(count, 2);
    assert_eq!(mask, vec![true, true, false]);
}

#[test]
fn test_combined_type_and_region() {
    let types = [0u32, 1, 0];
    let region = in_z_slab(&[1.0, 3.0, 5.0], 0.0, 4.0);
    let (mask, count) = group_mask(false, &Some(vec![0]), &types, &region, 3);
    assert_eq!(count, 1); // only atom 0 (type 0, z=1.0)
    assert_eq!(mask, vec![true, false, false]);
}

#[test]
fn test_empty_group() {
    let types = [0u32, 0];
    let region = vec![true; 2];
    let (mask, count) = group_mask(false, &Some(vec![99]), &types, &region, 2);
    assert_eq!(count, 0);
    assert!(mask.iter().all(|&m| !m));
}

#[test]
fn redefining_all_is_skipped() {
    let defined = vec!["mobile".to_string(), "all".to_string(), "wall".to_string()];
    let (names, skipped) = registered_group_names(&defined);
    assert_eq!(names, vec!["all".to_string(), "mobile".to_string(), "wall".to_string()]);
    assert_eq!(skipped, 1);
    assert_eq!(find_group(&names, "wall"), Some(2));
    assert_eq!(find_group(&names, "missing"), None);
}

#[test]
fn mask_covers_only_local_atoms() {
    let types = [1u32, 1, 1, 1];
    let region = vec![true; 4];
    let (mask, count) = group_mask(false, &Some(vec![1, 2]), &types, &region, 2);
    assert_eq!(mask, vec![true, true]);
    assert_eq!(count, 2);
}
