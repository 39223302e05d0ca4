use allocators::freelist::{FreeList, DEFAULT_CAPACITY};

#[test]
fn freelist_reuses_freed_indices_last_freed_first() {
    let mut fl: FreeList<u8> = FreeList::with_capacity(8);
    let x = fl.insert(16);
    let y = fl.insert(35);
    let z = fl.insert(73);
    assert_eq!((x, y, z), (0, 1, 2));

    assert_eq!(fl.remove(x), Some(16));
    assert_eq!(fl.remove(x), None);
    assert_eq!(fl.remove(z), Some(73));

    let u = fl.insert(42);
    let v = fl.insert(69);
    assert_eq!(u, z);
    assert_eq!(v, x);

    assert_eq!(fl.get(y), Some(&35));
    // Indices are never invalidated: the old ones resolve to the new values.
    assert_eq!(fl.get(x), Some(&69));
    assert_eq!(fl.get(z), Some(&42));
    assert_eq!(fl.len(), 3);
    assert_eq!(fl.capacity(), 8);
}

#[test]
fn freelist_round_trip() {
    let mut fl: FreeList<u32> = FreeList::new();
    for v in [0u32, 1, 7, u32::MAX] {
        let i = fl.insert(v);
        assert_eq!(fl.get(i), Some(&v));
    }
}

#[test]
fn freelist_default_capacity_is_sixteen() {
    let mut fl: FreeList<u8> = FreeList::new();
    assert_eq!(DEFAULT_CAPACITY, 16);
    assert_eq!(fl.capacity(), 16);
    assert_eq!(fl.len(), 0);
    assert_eq!(fl.next_free(), Some(0));
    for k in 0..16usize {
        assert_eq!(fl.insert(k as u8), k);
        assert_eq!(fl.capacity(), 16);
    }
    assert_eq!(fl.next_free(), None);
    assert_eq!(fl.len(), 16);
}

#[test]
fn freelist_first_capacity_insertions_do_not_grow() {
    let mut fl: FreeList<u8> = FreeList::with_capacity(3);
    assert_eq!(fl.insert(1), 0);
    assert_eq!(fl.insert(2), 1);
    assert_eq!(fl.insert(3), 2);
    assert_eq!(fl.capacity(), 3);
}

#[test]
fn freelist_double_remove_changes_nothing() {
    let mut fl: FreeList<u8> = FreeList::with_capacity(4);
    let a = fl.insert(10);
    let b = fl.insert(20);
    assert_eq!(fl.remove(a), Some(10));
    let head = fl.next_free();
    let len = fl.len();
    assert_eq!(fl.remove(a), None);
    assert_eq!(fl.next_free(), head);
    assert_eq!(fl.len(), len);
    assert_eq!(fl.get(a), None);
    assert_eq!(fl.get(b), Some(&20));
    // The chain is intact: the freed index is reused next, then the untouched ones.
    assert_eq!(fl.insert(30), a);
    assert_eq!(fl.insert(40), 2);
    assert_eq!(fl.insert(50), 3);
}

#[test]
fn freelist_growth_doubles_and_keeps_values() {
    let mut fl: FreeList<u8> = FreeList::with_capacity(2);
    let a = fl.insert(1);
    let b = fl.insert(2);
    assert_eq!(fl.capacity(), 2);
    let c = fl.insert(3);
    assert_eq!(c, 2);
    assert_eq!(fl.capacity(), 4);
    assert_eq!(fl.get(a), Some(&1));
    assert_eq!(fl.get(b), Some(&2));
    assert_eq!(fl.get(c), Some(&3));
    assert_eq!(fl.insert(4), 3);
    assert_eq!(fl.insert(5), 4);
    assert_eq!(fl.capacity(), 8);
}

#[test]
fn freelist_grow_threads_new_cells_before_old_ones() {
    let mut fl: FreeList<u8> = FreeList::with_capacity(2);
    fl.grow(2);
    assert_eq!(fl.capacity(), 4);
    assert_eq!(fl.insert(1), 2);
    assert_eq!(fl.insert(2), 3);
    assert_eq!(fl.insert(3), 0);
    assert_eq!(fl.insert(4), 1);
    assert_eq!(fl.capacity(), 4);
}

#[test]
fn freelist_grow_by_nothing_changes_nothing() {
    let mut fl: FreeList<u8> = FreeList::with_capacity(2);
    let a = fl.insert(9);
    fl.grow(0);
    assert_eq!(fl.capacity(), 2);
    assert_eq!(fl.next_free(), Some(1));
    assert_eq!(fl.get(a), Some(&9));
}

#[test]
fn freelist_empty_pool_gains_one_cell() {
    let mut fl: FreeList<u8> = FreeList::with_capacity(0);
    assert_eq!(fl.capacity(), 0);
    assert_eq!(fl.next_free(), None);
    assert_eq!(fl.insert(5), 0);
    assert_eq!(fl.capacity(), 1);
    assert_eq!(fl.insert(6), 1);
    assert_eq!(fl.capacity(), 2);
    assert_eq!(fl.get(0), Some(&5));
    assert_eq!(fl.get(1), Some(&6));
}

#[test]
fn freelist_absent_indices() {
    let mut fl: FreeList<u8> = FreeList::with_capacity(2);
    assert_eq!(fl.get(0), None);
    assert_eq!(fl.get(2), None);
    assert_eq!(fl.get(usize::MAX), None);
    assert_eq!(fl.remove(2), None);
    assert_eq!(fl.remove(usize::MAX), None);
    assert_eq!(fl.remove(0), None);
    assert_eq!(fl.insert(1), 0);
}

#[test]
fn freelist_try_insert_hands_value_back_when_full() {
    let mut fl: FreeList<u8> = FreeList::with_capacity(1);
    assert_eq!(fl.try_insert(1), Ok(0));
    assert_eq!(fl.try_insert(2), Err(2));
    assert_eq!(fl.capacity(), 1);
    assert_eq!(fl.grow_and_insert(2), 1);
    assert_eq!(fl.capacity(), 2);
    assert_eq!(fl.get(1), Some(&2));
}
