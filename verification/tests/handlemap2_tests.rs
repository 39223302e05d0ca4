use allocators::handlemap2::HandleMap2;

#[test]
fn handlemap2_stale_handles_resolve_to_nothing() {
    let mut sm: HandleMap2<u8> = HandleMap2::new();
    let x = sm.insert(16);
    let y = sm.insert(35);
    let z = sm.insert(73);

    assert_eq!(sm.remove(x), Some(16));
    assert_eq!(sm.remove(x), None);
    assert_eq!(sm.remove(z), Some(73));

    let u = sm.insert(42);
    let v = sm.insert(69);

    assert_eq!(sm.get(y), Some(&35));
    assert_eq!(sm.get(x), None);
    assert_eq!(sm.get(z), None);
    assert_eq!(sm.get(u), Some(&42));
    assert_eq!(sm.get(v), Some(&69));
}

#[test]
fn handlemap2_round_trip() {
    let mut sm: HandleMap2<u64> = HandleMap2::new();
    for v in [0u64, 5, u64::MAX] {
        let h = sm.insert(v);
        assert_eq!(sm.get(h), Some(&v));
        assert!(sm.is_handle_valid(h));
    }
}

#[test]
fn handlemap2_removed_handle_stays_absent_after_reuse() {
    let mut sm: HandleMap2<u8> = HandleMap2::new();
    let h = sm.insert(1);
    assert_eq!(sm.remove(h), Some(1));
    assert_eq!(sm.get(h), None);
    let k = sm.insert(2);
    assert_eq!(sm.get(h), None);
    assert_eq!(sm.get(k), Some(&2));
    assert!(!sm.is_handle_valid(h));
    assert_eq!(sm.remove(h), None);
    assert_eq!(sm.get(k), Some(&2));
}

#[test]
fn handlemap2_double_remove_changes_nothing() {
    let mut sm: HandleMap2<u8> = HandleMap2::new();
    let a = sm.insert(1);
    let b = sm.insert(2);
    assert_eq!(sm.remove(a), Some(1));
    assert_eq!(sm.remove(a), None);
    assert_eq!(sm.get(b), Some(&2));
    let c = sm.insert(3);
    let d = sm.insert(4);
    assert_eq!(sm.get(b), Some(&2));
    assert_eq!(sm.get(c), Some(&3));
    assert_eq!(sm.get(d), Some(&4));
    assert_eq!(sm.get(a), None);
}

#[test]
fn handlemap2_growth_keeps_values() {
    let mut sm: HandleMap2<usize> = HandleMap2::new();
    let mut handles = Vec::new();
    for v in 0..100usize {
        handles.push(sm.insert(v));
        for (w, h) in handles.iter().enumerate() {
            assert_eq!(sm.get(*h), Some(&w));
        }
    }
}

#[test]
fn handlemap2_get_mut_writes_through() {
    let mut sm: HandleMap2<u8> = HandleMap2::new();
    let a = sm.insert(1);
    let b = sm.insert(2);
    match sm.get_mut(a) {
        Some(v) => *v = 10,
        None => panic!("a live handle resolves"),
    }
    assert_eq!(sm.get(a), Some(&10));
    assert_eq!(sm.get(b), Some(&2));
    assert_eq!(sm.remove(a), Some(10));
    assert!(sm.get_mut(a).is_none());
    assert_eq!(sm.get(b), Some(&2));
}

#[test]
fn handlemap2_handles_of_another_map_are_absent() {
    let mut big: HandleMap2<u8> = HandleMap2::new();
    big.insert(1);
    let far = big.insert(2);
    let mut small: HandleMap2<u8> = HandleMap2::new();
    assert_eq!(small.get(far), None);
    assert!(small.get_mut(far).is_none());
    assert_eq!(small.remove(far), None);
    assert!(!small.is_handle_valid(far));
    let h = small.insert(9);
    assert_eq!(small.get(h), Some(&9));
}

#[test]
fn handlemap2_storage_can_be_inspected() {
    let mut sm: HandleMap2<u8> = HandleMap2::new();
    assert_eq!(sm.data_capacity(), 0);
    assert_eq!(sm.slot_capacity(), 0);
    assert_eq!(sm.next_address(), None);
    assert_eq!(sm.next_slot(), None);
    let a = sm.insert(1);
    let _b = sm.insert(2);
    assert_eq!(sm.slot_at(0), Some((1, Some(0))));
    assert_eq!(sm.slot_at(1), Some((1, Some(1))));
    assert_eq!(sm.slot_at(2), None);
    assert_eq!(sm.value_at(0), Some(&1));
    assert_eq!(sm.value_at(2), None);
    assert_eq!(sm.remove(a), Some(1));
    assert_eq!(sm.next_address(), Some(0));
    assert_eq!(sm.next_slot(), Some(0));
    assert_eq!(sm.slot_at(0), Some((1, None)));
    assert_eq!(sm.value_at(0), None);
    let _c = sm.insert(3);
    assert_eq!(sm.slot_at(0), Some((2, Some(0))));
    assert_eq!(sm.value_at(0), Some(&3));
    assert_eq!(sm.data_capacity(), 2);
    assert_eq!(sm.slot_capacity(), 2);
}
