use ecs::{EntityAllocator, EntityLocationMap};

#[test]
fn allocate_opens_slots_in_order_with_generation_zero() {
    let mut allocator = EntityAllocator::new();
    for i in 0..5u32 {
        let e = allocator.allocate();
        assert_eq!(e.index, i);
        assert_eq!(e.generation, 0);
        assert!(allocator.is_alive(e));
    }
}

#[test]
fn deallocated_handle_stays_dead_after_its_slot_is_reused() {
    let mut allocator = EntityAllocator::new();
    let h = allocator.allocate();
    allocator.allocate();
    assert!(allocator.is_alive(h));
    allocator.deallocate(h);
    assert!(!allocator.is_alive(h));
    let h2 = allocator.allocate();
    assert_eq!(h2.index, h.index);
    assert!(h2.generation > h.generation);
    assert_eq!(h2.generation, 1);
    assert!(allocator.is_alive(h2));
    assert!(!allocator.is_alive(h));
}

#[test]
fn freed_slots_are_reused_most_recent_first() {
    let mut allocator = EntityAllocator::new();
    let a = allocator.allocate();
    let b = allocator.allocate();
    let c = allocator.allocate();
    allocator.deallocate(a);
    allocator.deallocate(c);
    assert_eq!(allocator.allocate().index, c.index);
    assert_eq!(allocator.allocate().index, a.index);
    assert_eq!(allocator.allocate().index, 3);
    assert!(allocator.is_alive(b));
}

#[test]
fn stale_double_free_is_ignored() {
    let mut allocator = EntityAllocator::new();
    let h = allocator.allocate();
    allocator.deallocate(h);
    allocator.deallocate(h);
    let h2 = allocator.allocate();
    assert_eq!(h2.generation, 1);
    let h3 = allocator.allocate();
    assert_eq!(h3.index, 1);
}

#[test]
fn unknown_slot_is_not_alive_and_freeing_it_is_ignored() {
    let mut allocator = EntityAllocator::new();
    let mut other = EntityAllocator::new();
    for _ in 0..4 {
        other.allocate();
    }
    let foreign = other.allocate();
    assert!(!allocator.is_alive(foreign));
    allocator.deallocate(foreign);
    let e = allocator.allocate();
    assert_eq!(e.index, 0);
    assert_eq!(e.generation, 0);
    assert!(allocator.has_capacity());
}

#[test]
fn location_map_records_grows_and_forgets() {
    let mut allocator = EntityAllocator::new();
    let a = allocator.allocate();
    let mut handles = Vec::new();
    for _ in 0..6 {
        handles.push(allocator.allocate());
    }
    let far = handles[5];
    let mut map = EntityLocationMap::new();
    assert_eq!(map.get(a), None);
    map.insert(far, (2, 7));
    assert_eq!(map.get(far), Some((2, 7)));
    assert_eq!(map.get(a), None);
    map.insert(a, (0, 1));
    assert_eq!(map.get(a), Some((0, 1)));
    map.insert(a, (1, 0));
    assert_eq!(map.get(a), Some((1, 0)));
    map.remove(a);
    assert_eq!(map.get(a), None);
    assert_eq!(map.get(far), Some((2, 7)));
    let mut empty = EntityLocationMap::new();
    empty.remove(far);
    assert_eq!(empty.get(far), None);
}
