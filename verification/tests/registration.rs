use turbine::ring::registration::SlotAllocator;
use turbine::{ArenaIdx, OsError, RingRegistration, SlotId, TurbineError};

#[test]
fn default_state_is_not_registered() {
    let reg = RingRegistration::new(16);
    assert!(!reg.is_registered());
    assert_eq!(reg.generation(), 0);
}

#[test]
fn default_trait_matches_new() {
    let reg = RingRegistration::default();
    assert!(!reg.is_registered());
}

#[test]
fn slot_allocator_sequential() {
    let mut alloc = SlotAllocator::new(4);
    assert_eq!(alloc.allocate(), Some(SlotId::new(0)));
    assert_eq!(alloc.allocate(), Some(SlotId::new(1)));
    assert_eq!(alloc.allocate(), Some(SlotId::new(2)));
    assert_eq!(alloc.allocate(), Some(SlotId::new(3)));
    assert_eq!(alloc.allocate(), None);
}

#[test]
fn slot_allocator_reuse_after_free() {
    let mut alloc = SlotAllocator::new(4);
    let s0 = alloc.allocate().unwrap();
    let _s1 = alloc.allocate().unwrap();
    alloc.free(s0);
    // Should reuse slot 0
    assert_eq!(alloc.allocate(), Some(SlotId::new(0)));
}

#[test]
fn register_arena_tracking() {
    let mut reg = RingRegistration::new(8);

    let slot = reg.register_arena(ArenaIdx::new(0)).unwrap();
    assert_eq!(reg.slot_for_arena(ArenaIdx::new(0)), Some(slot));
    assert_eq!(reg.generation(), 1);

    let slot2 = reg.register_arena(ArenaIdx::new(1)).unwrap();
    assert_ne!(slot, slot2);
    assert_eq!(reg.slot_for_arena(ArenaIdx::new(1)), Some(slot2));
    assert_eq!(reg.generation(), 2);
}

#[test]
fn unregister_arena_frees_slot() {
    let mut reg = RingRegistration::new(2);

    let _s0 = reg.register_arena(ArenaIdx::new(0)).unwrap();
    let _s1 = reg.register_arena(ArenaIdx::new(1)).unwrap();

    // All slots full
    assert!(reg.register_arena(ArenaIdx::new(2)).is_err());

    // Free one
    reg.unregister_arena(ArenaIdx::new(0));
    assert_eq!(reg.slot_for_arena(ArenaIdx::new(0)), None);

    // Can allocate again
    let s2 = reg.register_arena(ArenaIdx::new(2)).unwrap();
    assert_eq!(reg.slot_for_arena(ArenaIdx::new(2)), Some(s2));
}

#[test]
fn slot_for_unknown_arena_returns_none() {
    let reg = RingRegistration::new(8);
    assert_eq!(reg.slot_for_arena(ArenaIdx::new(99)), None);
}

#[test]
fn slot_allocator_capacity_one() {
    let mut alloc = SlotAllocator::new(1);
    assert_eq!(alloc.allocate(), Some(SlotId::new(0)));
    assert_eq!(alloc.allocate(), None);
    alloc.free(SlotId::new(0));
    assert_eq!(alloc.allocate(), Some(SlotId::new(0)));
}

#[test]
fn slot_allocator_capacity_64() {
    let mut alloc = SlotAllocator::new(64);
    let mut slots = Vec::new();
    for i in 0..64 {
        let s = alloc.allocate().unwrap();
        assert_eq!(s.as_u16(), i as u16);
        slots.push(s);
    }
    assert_eq!(alloc.allocate(), None);

    // Free all and reallocate
    for s in &slots {
        alloc.free(*s);
    }
    for i in 0..64 {
        let s = alloc.allocate().unwrap();
        assert_eq!(s.as_u16(), i as u16);
    }
    assert_eq!(alloc.allocate(), None);
}

#[test]
fn unregister_frees_slots_for_reuse() {
    // The unregister and register cycle without a ring.
    let mut reg = RingRegistration::new(4);

    // Allocate all 4 slots.
    for i in 0..4 {
        reg.register_arena(ArenaIdx::new(i)).unwrap();
    }
    assert!(reg.register_arena(ArenaIdx::new(4)).is_err(), "slots should be full");

    // Free all slots and clear the map.
    reg.release_all();

    // Now re-register: should succeed because slots were freed.
    for i in 0..4 {
        reg.register_arena(ArenaIdx::new(i)).unwrap();
    }
    assert!(reg.register_arena(ArenaIdx::new(4)).is_err(), "slots should be full again");

    // Repeat the cycle 10 times to prove no leak.
    for _ in 0..10 {
        reg.release_all();
        for i in 0..4 {
            reg.register_arena(ArenaIdx::new(i)).unwrap();
        }
    }
}

#[test]
fn arena_slot_map_sparse_indices() {
    let mut reg = RingRegistration::new(8);

    let s0 = reg.register_arena(ArenaIdx::new(0)).unwrap();
    let s50 = reg.register_arena(ArenaIdx::new(50)).unwrap();
    let s99 = reg.register_arena(ArenaIdx::new(99)).unwrap();

    assert_eq!(reg.slot_for_arena(ArenaIdx::new(0)), Some(s0));
    assert_eq!(reg.slot_for_arena(ArenaIdx::new(50)), Some(s50));
    assert_eq!(reg.slot_for_arena(ArenaIdx::new(99)), Some(s99));

    // Gaps should be None
    assert_eq!(reg.slot_for_arena(ArenaIdx::new(25)), None);
    assert_eq!(reg.slot_for_arena(ArenaIdx::new(75)), None);

    // Vec grew to accommodate index 99
    assert!(reg.span() >= 100);

    // Unregister middle, verify others unchanged
    reg.unregister_arena(ArenaIdx::new(50));
    assert_eq!(reg.slot_for_arena(ArenaIdx::new(50)), None);
    assert_eq!(reg.slot_for_arena(ArenaIdx::new(0)), Some(s0));
    assert_eq!(reg.slot_for_arena(ArenaIdx::new(99)), Some(s99));
}

#[test]
fn default_has_32_slots() {
    let mut reg = RingRegistration::default();
    for i in 0..32 {
        assert_eq!(reg.register_arena(ArenaIdx::new(i)).unwrap(), SlotId::new(i as u16));
    }
    let err = reg.register_arena(ArenaIdx::new(32)).unwrap_err();
    assert!(matches!(err, TurbineError::NoRegistrationSlot(idx) if idx == ArenaIdx::new(32)));
    assert_eq!(reg.generation(), 32);
}

#[test]
fn lowest_free_slot_comes_first() {
    let mut reg = RingRegistration::new(4);
    for i in 0..4 {
        reg.register_arena(ArenaIdx::new(i)).unwrap();
    }
    reg.unregister_arena(ArenaIdx::new(2));
    reg.unregister_arena(ArenaIdx::new(1));
    assert_eq!(reg.register_arena(ArenaIdx::new(9)).unwrap(), SlotId::new(1));
    assert_eq!(reg.register_arena(ArenaIdx::new(8)).unwrap(), SlotId::new(2));
    // Nothing happens to an arena that holds no slot.
    let generation = reg.generation();
    reg.unregister_arena(ArenaIdx::new(77));
    assert_eq!(reg.generation(), generation);
}

#[test]
fn register_lists_arenas_by_slot() {
    let mut reg = RingRegistration::new(4);
    let table = reg.register(&vec![ArenaIdx::new(5), ArenaIdx::new(2)]).unwrap();
    assert_eq!(table, vec![Some(ArenaIdx::new(5)), Some(ArenaIdx::new(2)), None, None]);
    assert!(!reg.is_registered());
    assert_eq!(reg.generation(), 0);

    reg.finish_register(Ok(())).unwrap();
    assert!(reg.is_registered());
    assert_eq!(reg.generation(), 1);
    assert_eq!(reg.slot_for_arena(ArenaIdx::new(2)), Some(SlotId::new(1)));
}

#[test]
fn register_runs_out_of_slots() {
    let mut reg = RingRegistration::new(1);
    let err = reg.register(&vec![ArenaIdx::new(0), ArenaIdx::new(1), ArenaIdx::new(2)]).unwrap_err();
    assert!(matches!(err, TurbineError::NoRegistrationSlot(idx) if idx == ArenaIdx::new(1)));
    // The slot given before stays given.
    assert_eq!(reg.slot_for_arena(ArenaIdx::new(0)), Some(SlotId::new(0)));
    assert_eq!(reg.slot_for_arena(ArenaIdx::new(1)), None);
}

#[test]
fn ring_refuses_registration() {
    let mut reg = RingRegistration::new(2);
    reg.register(&vec![ArenaIdx::new(0)]).unwrap();
    let refused = Err(OsError { code: 16, text: "busy".to_string() });
    let err = reg.finish_register(refused).unwrap_err();
    assert!(matches!(&err, TurbineError::Registration(os) if os.code == 16));
    assert!(!reg.is_registered());
    assert_eq!(reg.generation(), 0);
}

#[test]
fn generation_counts_changes() {
    let mut reg = RingRegistration::new(2);
    reg.unregister_arena(ArenaIdx::new(0));
    assert_eq!(reg.generation(), 0);
    reg.register_arena(ArenaIdx::new(0)).unwrap();
    reg.register_arena(ArenaIdx::new(1)).unwrap();
    assert!(reg.register_arena(ArenaIdx::new(2)).is_err());
    assert_eq!(reg.generation(), 2);
    assert!(reg.register(&vec![ArenaIdx::new(3)]).is_err());
    reg.unregister(Ok(())).unwrap();
    assert_eq!(reg.generation(), 2);
    reg.unregister_arena(ArenaIdx::new(1));
    assert_eq!(reg.generation(), 3);
    reg.register(&vec![ArenaIdx::new(3)]).unwrap();
    reg.finish_register(Ok(())).unwrap();
    reg.unregister(Ok(())).unwrap();
    assert_eq!(reg.generation(), 5);
}

#[test]
fn unregister_frees_slots_that_nobody_holds() {
    let mut reg = RingRegistration::new(2);
    // The second registration of the arena takes a second slot.
    reg.register(&vec![ArenaIdx::new(0)]).unwrap();
    reg.register(&vec![ArenaIdx::new(0)]).unwrap();
    assert_eq!(reg.slot_for_arena(ArenaIdx::new(0)), Some(SlotId::new(1)));
    assert!(reg.register_arena(ArenaIdx::new(1)).is_err());
    reg.finish_register(Ok(())).unwrap();
    reg.unregister(Ok(())).unwrap();
    let table = reg.register(&vec![ArenaIdx::new(3), ArenaIdx::new(4)]).unwrap();
    assert_eq!(table, vec![Some(ArenaIdx::new(3)), Some(ArenaIdx::new(4))]);
}

#[test]
fn unregister_starts_fresh() {
    let mut reg = RingRegistration::new(2);
    // Nothing is registered: nothing happens.
    reg.unregister(Ok(())).unwrap();
    assert_eq!(reg.generation(), 0);

    reg.register(&vec![ArenaIdx::new(0), ArenaIdx::new(1)]).unwrap();
    reg.finish_register(Ok(())).unwrap();
    let refused = Err(OsError { code: 5, text: "io".to_string() });
    let err = reg.unregister(refused).unwrap_err();
    assert!(matches!(&err, TurbineError::Registration(os) if os.text == "io"));
    assert!(reg.is_registered());
    assert_eq!(reg.slot_for_arena(ArenaIdx::new(1)), Some(SlotId::new(1)));

    reg.unregister(Ok(())).unwrap();
    assert!(!reg.is_registered());
    assert_eq!(reg.generation(), 2);
    assert_eq!(reg.slot_for_arena(ArenaIdx::new(1)), None);
    let table = reg.register(&vec![ArenaIdx::new(7), ArenaIdx::new(6)]).unwrap();
    assert_eq!(table, vec![Some(ArenaIdx::new(7)), Some(ArenaIdx::new(6))]);
}
