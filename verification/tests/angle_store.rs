use mddem::angle::{AngleEntry, AngleStore};

#[test]
fn pack_unpack_round_trip() {
    let mut store = AngleStore::new();
    store.angles.push(vec![
        AngleEntry { tag_i: 0, tag_k: 2, angle_type: 0 },
        AngleEntry { tag_i: 3, tag_k: 5, angle_type: 1 },
    ]);

    let mut buf = Vec::new();
    store.pack(0, &mut buf);
    assert_eq!(buf.len(), 1 + 3 * 2);

    let mut store2 = AngleStore::new();
    let consumed = store2.unpack(&buf);
    assert_eq!(consumed, buf.len());
    assert_eq!(store2.angles[0].len(), 2);
    assert_eq!(store2.angles[0][0].tag_i, 0);
    assert_eq!(store2.angles[0][0].tag_k, 2);
    assert_eq!(store2.angles[0][1].tag_i, 3);
    assert_eq!(store2.angles[0][1].tag_k, 5);
}

#[test]
fn pack_empty() {
    let store = AngleStore::new();
    let mut buf = Vec::new();
    store.pack(99, &mut buf);
    assert_eq!(buf.len(), 1);
    assert_eq!(buf[0] as usize, 0);
}

#[test]
fn swap_remove_works() {
    let mut store = AngleStore::new();
    store.angles.push(vec![AngleEntry { tag_i: 0, tag_k: 2, angle_type: 0 }]);
    store.angles.push(Vec::new());
    store.angles.push(vec![AngleEntry { tag_i: 1, tag_k: 3, angle_type: 0 }]);
    store.swap_remove(0);
    assert_eq!(store.angles.len(), 2);
    assert_eq!(store.angles[0][0].tag_i, 1);
}

#[test]
fn pack_appends_after_existing_words() {
    let mut store = AngleStore::new();
    store.angles.push(vec![AngleEntry { tag_i: 7, tag_k: 9, angle_type: 2 }]);
    let mut buf = vec![42u64];
    store.pack(0, &mut buf);
    assert_eq!(buf, vec![42, 1, 7, 9, 2]);
}

#[test]
fn unpack_reads_only_its_own_words() {
    let mut store = AngleStore::new();
    let consumed = store.unpack(&[1, 4, 6, 3, 99, 99]);
    assert_eq!(consumed, 4);
    assert_eq!(store.angles.len(), 1);
    assert_eq!(store.angles[0], vec![AngleEntry { tag_i: 4, tag_k: 6, angle_type: 3 }]);
}

#[test]
fn swap_remove_out_of_range_is_noop() {
    let mut store = AngleStore::new();
    store.angles.push(Vec::new());
    store.swap_remove(5);
    assert_eq!(store.angles.len(), 1);
}

#[test]
fn truncate_grows_and_shrinks() {
    let mut store = AngleStore::new();
    store.angles.push(vec![AngleEntry { tag_i: 1, tag_k: 2, angle_type: 0 }]);
    store.truncate(3);
    assert_eq!(store.angles.len(), 3);
    assert_eq!(store.angles[0].len(), 1);
    assert!(store.angles[1].is_empty() && store.angles[2].is_empty());
    store.truncate(1);
    assert_eq!(store.angles.len(), 1);
    assert_eq!(store.angles[0][0].tag_k, 2);
}

#[test]
fn apply_permutation_reorders_prefix() {
    let mut store = AngleStore::new();
    for t in 0..3u32 {
        store.angles.push(vec![AngleEntry { tag_i: t, tag_k: t, angle_type: 0 }]);
    }
    store.apply_permutation(&[1, 0], 2);
    assert_eq!(store.angles[0][0].tag_i, 1);
    assert_eq!(store.angles[1][0].tag_i, 0);
    assert_eq!(store.angles[2][0].tag_i, 2);
}

#[test]
fn unpack_saturates_oversized_words() {
    let mut store = AngleStore::new();
    let consumed = store.unpack(&[1, 5_000_000_000, 7, u64::MAX]);
    assert_eq!(consumed, 4);
    assert_eq!(store.angles[0], vec![AngleEntry { tag_i: u32::MAX, tag_k: 7, angle_type: u32::MAX }]);
}
