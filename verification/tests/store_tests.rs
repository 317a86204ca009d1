use kms_local::local::Local;

#[test]
fn fresh_store_is_empty() {
    let local: Local<u64> = Local::new();
    assert_eq!(local.count().unwrap(), 0);
    assert!(local.latest().unwrap().is_none());
    assert!(local.get(&1).unwrap().is_none());
}

#[test]
fn update_assigns_contiguous_versions() {
    let mut local: Local<u64> = Local::new();
    let n: u64 = 25;
    for v in 0..n {
        local.update(v * 3).expect("update failed");
    }
    assert_eq!(local.count().unwrap(), n);
    for version in 1..=n {
        let got = local.get(&version).unwrap();
        assert_eq!(got, Some((version - 1) * 3));
    }
    assert!(local.get(&0).unwrap().is_none());
    assert!(local.get(&(n + 1)).unwrap().is_none());
}

#[test]
fn drop_retires_version_and_keeps_count() {
    let mut local: Local<u64> = Local::new();
    for v in [10u64, 20, 30] {
        local.update(v).expect("update failed");
    }
    assert_eq!(local.count().unwrap(), 3);

    let removed = local.drop(&2).unwrap();
    assert_eq!(removed, Some(20));
    assert!(local.get(&2).unwrap().is_none());
    assert_eq!(local.count().unwrap(), 3);

    let removed_again = local.drop(&2).unwrap();
    assert!(removed_again.is_none());
    assert_eq!(local.count().unwrap(), 3);

    local.update(40).expect("update failed");
    assert_eq!(local.count().unwrap(), 4);
    assert_eq!(local.get(&4).unwrap(), Some(40));
    assert!(local.get(&2).unwrap().is_none());
}

#[test]
fn latest_matches_get_at_maximum_present_version() {
    let mut local: Local<u64> = Local::new();
    for v in [5u64, 6, 7, 8] {
        local.update(v).expect("update failed");
    }
    assert_eq!(local.latest().unwrap(), Some(8));
    let vk = local.latest_version().unwrap().expect("store not empty");
    assert_eq!(*vk.version(), 4);
    assert_eq!(local.get(vk.version()).unwrap(), Some(*vk.record()));

    local.drop(&4).unwrap();
    assert_eq!(local.latest().unwrap(), Some(7));
    let vk = local.latest_version().unwrap().expect("store not empty");
    assert_eq!(*vk.version(), 3);
    assert_eq!(local.get(vk.version()).unwrap(), Some(*vk.record()));

    local.drop(&3).unwrap();
    local.drop(&2).unwrap();
    local.drop(&1).unwrap();
    assert!(local.latest().unwrap().is_none());
    assert!(local.latest_version().unwrap().is_none());
}

#[test]
fn get_version_pairs_version_with_record() {
    let mut local: Local<u64> = Local::new();
    local.update(99).expect("update failed");
    let vk = local.get_version(&1).unwrap().expect("present");
    assert_eq!(*vk.version(), 1);
    assert_eq!(*vk.record(), 99);
    assert!(local.get_version(&2).unwrap().is_none());
}

#[test]
fn store_reader_exposes_ordered_entries() {
    let mut local: Local<u64> = Local::new();
    for v in [4u64, 5, 6] {
        local.update(v).expect("update failed");
    }
    local.drop(&2).unwrap();
    let entries = local.store_reader().unwrap();
    assert_eq!(entries.as_slice(), &[(1u64, 4u64), (3, 6)]);
}
