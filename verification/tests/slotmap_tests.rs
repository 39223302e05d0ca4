use allocators::slotmap::HandleMap;

#[test]
fn handlemap_stale_handles_resolve_to_nothing() {
    let mut sm: HandleMap<u8> = HandleMap::new();
    let x = sm.insert(16);
    let y = sm.insert(35);
    let z = sm.insert(73);

    sm.remove(x);
    sm.remove(x);
    sm.remove(z);

    let u = sm.insert(42);
    let v = sm.insert(69);

    assert_eq!(sm.get(y), Some(&35));
    assert_eq!(sm.get(x), None);
    assert_eq!(sm.get(z), None);
    assert_eq!(sm.get(u), Some(&42));
    assert_eq!(sm.get(v), Some(&69));
}

#[test]
fn handlemap_round_trip() {
    let mut sm: HandleMap<i32> = HandleMap::new();
    for v in [-1i32, 0, 77] {
        let h = sm.insert(v);
        assert_eq!(sm.get(h), Some(&v));
    }
}

#[test]
fn handlemap_removed_handle_stays_absent_after_reuse() {
    let mut sm: HandleMap<u8> = HandleMap::new();
    let h = sm.insert(1);
    sm.remove(h);
    assert_eq!(sm.get(h), None);
    let k = sm.insert(2);
    assert_eq!(sm.get(h), None);
    assert_eq!(sm.get(k), Some(&2));
    sm.remove(h);
    assert_eq!(sm.get(k), Some(&2));
}

#[test]
fn handlemap_double_remove_changes_nothing() {
    let mut sm: HandleMap<u8> = HandleMap::new();
    let a = sm.insert(1);
    let b = sm.insert(2);
    sm.remove(a);
    sm.remove(a);
    let c = sm.insert(3);
    let d = sm.insert(4);
    assert_eq!(sm.get(a), None);
    assert_eq!(sm.get(b), Some(&2));
    assert_eq!(sm.get(c), Some(&3));
    assert_eq!(sm.get(d), Some(&4));
}

#[test]
fn handlemap_growth_keeps_values() {
    let mut sm: HandleMap<usize> = HandleMap::new();
    let mut handles = Vec::new();
    for v in 0..100usize {
        handles.push(sm.insert(v));
        for (w, h) in handles.iter().enumerate() {
            assert_eq!(sm.get(*h), Some(&w));
        }
    }
}

#[test]
fn handlemap_get_mut_writes_through() {
    let mut sm: HandleMap<u8> = HandleMap::new();
    let a = sm.insert(1);
    let b = sm.insert(2);
    match sm.get_mut(a) {
        Some(v) => *v = 10,
        None => panic!("a live handle resolves"),
    }
    assert_eq!(sm.get(a), Some(&10));
    assert_eq!(sm.get(b), Some(&2));
    sm.remove(a);
    assert!(sm.get_mut(a).is_none());
}

#[test]
fn handlemap_handles_of_another_map_are_absent() {
    let mut big: HandleMap<u8> = HandleMap::new();
    big.insert(1);
    let far = big.insert(2);
    let mut small: HandleMap<u8> = HandleMap::new();
    assert_eq!(small.get(far), None);
    assert!(small.get_mut(far).is_none());
    small.remove(far);
    let h = small.insert(9);
    assert_eq!(small.get(h), Some(&9));
}
