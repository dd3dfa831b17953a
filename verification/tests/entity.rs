use engine::entity::EntityAllocator;

#[test]
fn allocate_hands_out_fresh_slots_in_order() {
    let mut a = EntityAllocator::default();
    let e0 = a.allocate();
    let e1 = a.allocate();
    assert_eq!((e0.index(), e0.generation()), (0, 0));
    assert_eq!((e1.index(), e1.generation()), (1, 0));
    assert!(a.is_alive(e0));
    assert!(a.is_alive(e1));
    assert_ne!(e0, e1);
}

#[test]
fn dealloc_kills_the_handle() {
    let mut a = EntityAllocator::default();
    let e = a.allocate();
    a.dealloc(e);
    assert!(!a.is_alive(e));
}

#[test]
fn freed_slot_is_reused_with_next_generation() {
    let mut a = EntityAllocator::default();
    let e0 = a.allocate();
    let _e1 = a.allocate();
    a.dealloc(e0);
    let e2 = a.allocate();
    assert_eq!(e2.index(), e0.index());
    assert_eq!(e2.generation(), e0.generation() + 1);
    assert!(a.is_alive(e2));
    assert!(!a.is_alive(e0));
    assert_ne!(e2, e0);
}

#[test]
fn most_recently_freed_slot_comes_back_first() {
    let mut a = EntityAllocator::default();
    let e0 = a.allocate();
    let e1 = a.allocate();
    let e2 = a.allocate();
    a.dealloc(e0);
    a.dealloc(e2);
    assert_eq!(a.allocate().index(), e2.index());
    assert_eq!(a.allocate().index(), e0.index());
    let fresh = a.allocate();
    assert_eq!((fresh.index(), fresh.generation()), (3, 0));
    assert!(a.is_alive(e1));
}

#[test]
fn dead_handle_stays_dead() {
    let mut a = EntityAllocator::default();
    let e = a.allocate();
    a.dealloc(e);
    for _ in 0..5 {
        let x = a.allocate();
        assert!(!a.is_alive(e));
        a.dealloc(x);
        assert!(!a.is_alive(e));
    }
}

#[test]
fn handle_of_unknown_slot_is_not_alive() {
    let mut other = EntityAllocator::default();
    other.allocate();
    let far = other.allocate();
    let a = EntityAllocator::default();
    assert!(!a.is_alive(far));
}

#[test]
fn live_handles_never_share_a_slot() {
    let mut a = EntityAllocator::default();
    let mut live = Vec::new();
    for _ in 0..4 {
        live.push(a.allocate());
    }
    let freed = live.remove(1);
    a.dealloc(freed);
    let freed2 = live.remove(2);
    a.dealloc(freed2);
    for _ in 0..3 {
        live.push(a.allocate());
    }
    assert!(!a.is_alive(freed));
    assert!(!a.is_alive(freed2));
    for (i, x) in live.iter().enumerate() {
        assert!(a.is_alive(*x));
        for y in live.iter().skip(i + 1) {
            assert_ne!(x.index(), y.index());
        }
    }
    assert_eq!(live.len(), 5);
}
