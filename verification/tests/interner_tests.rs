use swift_swallow_tree_search::interner::CAPACITY;
use swift_swallow_tree_search::interner::Interner;

#[test]
fn interning_assigns_handles_in_insertion_order() {
    let mut interner = Interner::new();
    assert_eq!(interner.get_or_intern(40), 0);
    assert_eq!(interner.get_or_intern(7), 1);
    assert_eq!(interner.get_or_intern(99), 2);
    assert_eq!(interner.len(), 3);
    assert_eq!(interner.iter(), &[40, 7, 99]);
}

#[test]
fn interning_twice_returns_the_same_handle() {
    let mut interner = Interner::default();
    let first = interner.get_or_intern(12345);
    let _ = interner.get_or_intern(1);
    let again = interner.get_or_intern(12345);
    assert_eq!(first, again);
    assert_eq!(interner.len(), 2);
    assert_eq!(interner.get(12345), Some(0));
    assert_eq!(interner.get(1), Some(1));
    assert_eq!(interner.get(2), None);
}

#[test]
fn resolve_returns_interned_values() {
    let mut interner = Interner::new();
    let a = interner.get_or_intern(u64::MAX);
    let b = interner.get_or_intern(0);
    assert_eq!(interner.resolve(a), Some(&u64::MAX));
    assert_eq!(interner.resolve(b), Some(&0));
    assert_eq!(interner.resolve(2), None);
    assert_eq!(Interner::new().resolve(0), None);
}

#[test]
fn clone_keeps_every_handle() {
    let mut interner = Interner::new();
    for v in [5u64, 3, 5, 8, 3] {
        let _ = interner.get_or_intern(v);
    }
    let copy = interner.clone();
    assert_eq!(copy.iter(), &[5, 3, 8]);
    assert_eq!(copy.get(8), Some(2));
}

#[test]
fn interner_holds_up_to_u16_max_values() {
    assert_eq!(CAPACITY, u16::MAX as usize);
    let mut interner = Interner::new();
    for v in 0..CAPACITY as u64 {
        assert_eq!(interner.get_or_intern(v * 3), v as u16);
    }
    assert_eq!(interner.len(), CAPACITY);
    assert_eq!(interner.get_or_intern(3), 1);
    assert_eq!(interner.resolve(u16::MAX - 1), Some(&((CAPACITY as u64 - 1) * 3)));
}

#[test]
fn interner_holds_values_in_first_seen_order() {
    let calls = [9u64, 4, 9, 7, 4, 4, 1, 7];
    let mut interner = Interner::new();
    let handles: Vec<u16> = calls.iter().map(|&v| interner.get_or_intern(v)).collect();
    assert_eq!(handles, vec![0, 1, 0, 2, 1, 1, 3, 2]);
    assert_eq!(interner.iter(), &[9, 4, 7, 1]);
    for (h, v) in [9u64, 4, 7, 1].iter().enumerate() {
        assert_eq!(interner.resolve(h as u16), Some(v));
    }
    assert_eq!(interner.resolve(4), None);
}
