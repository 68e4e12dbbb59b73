use physics_pipeline::arena::Arena;
use physics_pipeline::handle::Handle;

#[test]
fn allocate_then_resolve() {
    let mut a: Arena<u32> = Arena::new();
    let h = a.allocate(42);
    assert_eq!(h.index, 0);
    assert_eq!(h.generation, 0);
    assert_eq!(a.resolve(h), Some(&42));
}

#[test]
fn handles_are_unique_while_live() {
    let mut a: Arena<u32> = Arena::new();
    let h1 = a.allocate(1);
    let h2 = a.allocate(2);
    let h3 = a.allocate(3);
    assert_ne!(h1, h2);
    assert_ne!(h1, h3);
    assert_ne!(h2, h3);
    assert_eq!(a.resolve(h1), Some(&1));
    assert_eq!(a.resolve(h2), Some(&2));
    assert_eq!(a.resolve(h3), Some(&3));
}

#[test]
fn free_reports_found_once() {
    let mut a: Arena<u32> = Arena::new();
    let h = a.allocate(7);
    assert!(a.free(h));
    assert!(!a.free(h));
}

#[test]
fn stale_handle_rejected_after_reuse() {
    let mut a: Arena<u32> = Arena::new();
    let h = a.allocate(7);
    assert!(a.free(h));
    assert_eq!(a.resolve(h), None);
    // the slot is reused at a bumped generation
    let h2 = a.allocate(9);
    assert_eq!(h2.index, h.index);
    assert_eq!(h2.generation, h.generation + 1);
    // the old handle still reports not-found, never the new occupant
    assert_eq!(a.resolve(h), None);
    assert_eq!(a.resolve(h2), Some(&9));
}

#[test]
fn fresh_allocation_keeps_generation_zero() {
    let mut a: Arena<u32> = Arena::new();
    let h1 = a.allocate(1);
    let h2 = a.allocate(2);
    assert_eq!(h1.generation, 0);
    assert_eq!(h2.generation, 0);
    assert_eq!(h2.index, 1);
}

#[test]
fn allocate_reuses_first_free_slot() {
    let mut a: Arena<u32> = Arena::new();
    let h0 = a.allocate(0);
    let h1 = a.allocate(1);
    let _h2 = a.allocate(2);
    assert!(a.free(h0));
    assert!(a.free(h1));
    let r = a.allocate(10);
    assert_eq!(r.index, 0);
    assert_eq!(r.generation, 1);
}

#[test]
fn free_of_never_issued_handle_is_noop() {
    let mut a: Arena<u32> = Arena::new();
    let h = a.allocate(3);
    assert!(!a.free(Handle { index: 5, generation: 0 }));
    assert!(!a.free(Handle { index: 0, generation: 9 }));
    assert_eq!(a.resolve(h), Some(&3));
}
