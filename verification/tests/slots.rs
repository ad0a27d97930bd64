use voxel_engine::derived::slots::SlotPool;

#[test]
fn freed_handle_stops_resolving_and_reuse_gets_a_new_generation() {
    let mut p = SlotPool::new();
    let a = p.allocate("a");
    assert_eq!(p.get(a), Some(&"a"));
    assert_eq!(p.free(a), Some("a"));
    assert_eq!(p.get(a), None);
    let b = p.allocate("b");
    assert_eq!(b.index(), a.index(), "slot is reused");
    assert_ne!(b.generation(), a.generation());
    assert_eq!(p.get(a), None, "old handle must not see the new occupant");
    assert_eq!(p.get(b), Some(&"b"));
}

#[test]
fn double_free_and_stale_free_are_rejected() {
    let mut p = SlotPool::new();
    let a = p.allocate(1);
    assert_eq!(p.free(a), Some(1));
    assert_eq!(p.free(a), None);
    let b = p.allocate(2);
    assert_eq!(p.free(a), None, "stale handle cannot free the new occupant");
    assert_eq!(p.get(b), Some(&2));
    assert_eq!(p.stats().live, 1);
}

#[test]
fn exhausted_generation_retires_the_slot() {
    let mut p = SlotPool::new();
    let a = p.allocate(1);
    let a = p.force_generation(a, u32::MAX).unwrap();
    assert_eq!(p.free(a), Some(1));
    let b = p.allocate(2);
    assert_ne!(b.index(), a.index(), "a wrapped generation would alias handle 0, so the slot is never reused");
    assert_eq!(p.stats().exhausted_slots, 1);
}

#[test]
fn free_slots_are_reused_lowest_first() {
    let mut p = SlotPool::new();
    let hs: Vec<_> = (0..4).map(|i| p.allocate(i)).collect();
    p.free(hs[3]);
    p.free(hs[1]);
    assert_eq!(p.allocate(9).index(), 1);
    assert_eq!(p.allocate(9).index(), 3);
}

#[test]
fn a_generation_cannot_be_moved_back() {
    let mut p = SlotPool::new();
    let a = p.allocate(1);
    let b = p.force_generation(a, 7).unwrap();
    assert!(p.force_generation(b, 3).is_none());
    assert!(p.force_generation(a, 9).is_none(), "the old handle names nothing");
    assert_eq!(p.get(b), Some(&1));
}

#[test]
fn a_reused_slot_starts_one_generation_later() {
    let mut p = SlotPool::new();
    let a = p.allocate('a');
    let b = p.allocate('b');
    assert_eq!((a.generation(), b.generation()), (0, 0));
    let mut last = a;
    for n in 1..4 {
        assert!(p.free(last).is_some());
        let next = p.allocate('c');
        assert_eq!((next.index(), next.generation()), (0, n));
        assert_eq!((p.get(last), p.get(next)), (None, Some(&'c')));
        last = next;
    }
    assert_eq!(p.get(b), Some(&'b'));
    let s = p.stats();
    assert_eq!((s.live, s.allocations, s.frees), (2, 5, 3));
}
