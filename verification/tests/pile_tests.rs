use allocators::pile::{Pile, DEFAULT_CAPACITY};
use std::rc::Rc;

fn read(pile: &Pile, p: allocators::pile::Pointer) -> Option<u8> {
    pile.get(p).map(|c| *c.borrow())
}

#[test]
fn pile_stale_pointers_resolve_to_nothing() {
    let mut pile = Pile::with_capacity(8);
    let x = pile.allocate(16);
    let y = pile.allocate(35);
    let z = pile.allocate(73);

    pile.free(x);
    pile.free(x);
    pile.free(z);

    let u = pile.allocate(42);
    let v = pile.allocate(69);

    assert_eq!(read(&pile, y), Some(35));
    assert_eq!(read(&pile, x), None);
    assert_eq!(read(&pile, z), None);
    assert_eq!(read(&pile, u), Some(42));
    assert_eq!(read(&pile, v), Some(69));
}

#[test]
fn pile_round_trip() {
    let mut pile = Pile::new();
    for v in [0u8, 1, 200, 255] {
        let p = pile.allocate(v);
        assert_eq!(read(&pile, p), Some(v));
    }
}

#[test]
fn pile_cell_outlives_its_pointer() {
    let mut pile = Pile::new();
    let p = pile.allocate(7);
    let cell = pile.get(p).unwrap();
    pile.free(p);
    assert!(pile.get(p).is_none());
    assert_eq!(*cell.borrow(), 7);
    *cell.borrow_mut() = 8;
    assert_eq!(*cell.borrow(), 8);
    // The storage is reused, and the holder's cell is not touched by it.
    let q = pile.allocate(9);
    assert_eq!(read(&pile, q), Some(9));
    assert_eq!(*cell.borrow(), 8);
    assert!(pile.get(p).is_none());
}

#[test]
fn pile_get_hands_out_the_same_cell() {
    let mut pile = Pile::new();
    let p = pile.allocate(1);
    let a = pile.get(p).unwrap();
    let b = pile.get(p).unwrap();
    assert!(Rc::ptr_eq(&a, &b));
    *a.borrow_mut() = 2;
    assert_eq!(*b.borrow(), 2);
    assert_eq!(read(&pile, p), Some(2));
    assert_eq!(Rc::strong_count(&a), 3);
}

#[test]
fn pile_conflicting_borrows_are_refused() {
    let mut pile = Pile::new();
    let p = pile.allocate(1);
    let a = pile.get(p).unwrap();
    let b = pile.get(p).unwrap();
    let writer = a.borrow_mut();
    assert!(b.try_borrow_mut().is_err());
    assert!(b.try_borrow().is_err());
    drop(writer);
    assert!(b.try_borrow_mut().is_ok());
}

#[test]
fn pile_stores_a_given_cell() {
    let mut pile = Pile::with_capacity(1);
    let cell = Rc::new(std::cell::RefCell::new(5u8));
    let p = pile.allocate_cell(cell.clone());
    let found = pile.get(p).unwrap();
    assert!(Rc::ptr_eq(&cell, &found));
}

#[test]
fn pile_growth_keeps_values() {
    assert_eq!(DEFAULT_CAPACITY, 8);
    let mut pile = Pile::with_capacity(2);
    let mut pointers = Vec::new();
    for v in 0..40u8 {
        pointers.push(pile.allocate(v));
        for (w, p) in pointers.iter().enumerate() {
            assert_eq!(read(&pile, *p), Some(w as u8));
        }
    }
}

#[test]
fn pile_without_capacity_grows_by_one() {
    let mut pile = Pile::with_capacity(0);
    let a = pile.allocate(1);
    let b = pile.allocate(2);
    assert_eq!(read(&pile, a), Some(1));
    assert_eq!(read(&pile, b), Some(2));
}

#[test]
fn pile_reserve_keeps_values() {
    let mut pile = Pile::with_capacity(1);
    let a = pile.allocate(1);
    pile.reserve(3);
    assert_eq!(read(&pile, a), Some(1));
    let b = pile.allocate(2);
    assert_eq!(read(&pile, a), Some(1));
    assert_eq!(read(&pile, b), Some(2));
}

#[test]
fn pile_pointers_of_another_pile_are_absent() {
    let mut big = Pile::with_capacity(4);
    big.allocate(1);
    big.allocate(2);
    let far = big.allocate(3);
    let mut small = Pile::with_capacity(1);
    assert!(small.get(far).is_none());
    small.free(far);
    let p = small.allocate(4);
    assert_eq!(read(&small, p), Some(4));
}

#[test]
fn pile_counts_allocated_cells() {
    let mut pile = Pile::with_capacity(2);
    assert_eq!(pile.capacity(), 2);
    assert_eq!(pile.allocated(), 0);
    let a = pile.allocate(1);
    let _b = pile.allocate(2);
    assert_eq!(pile.allocated(), 2);
    pile.free(a);
    pile.free(a);
    assert_eq!(pile.allocated(), 1);
    let _c = pile.allocate(3);
    assert_eq!(pile.capacity(), 2);
    let _d = pile.allocate(4);
    assert_eq!(pile.capacity(), 4);
    assert_eq!(pile.allocated(), 3);
}
