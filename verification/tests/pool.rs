use turbine::{
    ArenaIdx, IouringBufferPool, LeasedBuffer, NoopHooks, OsError, PoolConfig, SendableBuffer,
    SlotId, TurbineError,
};

type HeapPool = IouringBufferPool<NoopHooks, fn(usize) -> Result<&'static mut [u8], OsError>>;

/// A type that is `Send` has two of these, and `probe` is ambiguous for it.
trait Probe<A> {
    fn probe() {}
}

impl<T> Probe<()> for T {}

impl<T: Send> Probe<u8> for T {}

fn assert_send<T: Send>() {}

fn heap_region(size: usize) -> Result<&'static mut [u8], OsError> {
    Ok(Box::leak(vec![0u8; size].into_boxed_slice()))
}

fn test_config() -> PoolConfig {
    PoolConfig {
        arena_size: 4096,
        initial_arenas: 3,
        max_free_arenas: 4,
        max_total_arenas: 0,
        registration_slots: 32,
        page_size: 4096,
    }
}

fn test_pool() -> IouringBufferPool<NoopHooks, impl Fn(usize) -> Result<&'static mut [u8], OsError>> {
    IouringBufferPool::new(test_config(), NoopHooks, heap_region).unwrap()
}

#[test]
fn lease_returns_buffer() {
    let mut pool = test_pool();
    let buf = pool.lease(64).unwrap();
    assert_eq!(buf.len(), 64);
    assert_eq!(buf.epoch(), 0);
}

#[test]
fn lease_tracks_available() {
    let mut pool = test_pool();
    assert_eq!(pool.available(), 4096);

    let _buf = pool.lease(1024).unwrap();
    assert_eq!(pool.available(), 3072);
}

#[test]
fn lease_returns_none_when_full() {
    let mut pool = test_pool();
    let _buf = pool.lease(4096).unwrap();
    assert!(pool.lease(1).is_none());
}

#[test]
fn rotate_advances_epoch() {
    let mut pool = test_pool();
    assert_eq!(pool.epoch(), 0);

    pool.rotate().unwrap();
    assert_eq!(pool.epoch(), 1);

    pool.rotate().unwrap();
    assert_eq!(pool.epoch(), 2);
}

#[test]
fn lease_rotate_collect_lifecycle() {
    let mut pool = test_pool();

    let buf = pool.lease(128).unwrap();
    assert_eq!(buf.epoch(), 0);

    pool.rotate().unwrap();

    // Can't collect epoch 0: still has a lease.
    assert!(pool.collect_epoch(0).is_err());

    pool.release(buf);

    pool.collect_epoch(0).unwrap();
}

#[test]
fn cross_thread_release_decrements_lease() {
    let mut pool = test_pool();

    let buf = pool.lease(64).unwrap();
    let sendable = buf.into_sendable();
    pool.rotate().unwrap();

    // Giving the SendableBuffer back decrements the lease.
    pool.release_sent(sendable);

    // collect() should now succeed since outstanding leases == 0.
    let collected = pool.collect();
    assert!(collected >= 1);
}

#[test]
fn multiple_leases_same_epoch() {
    let mut pool = test_pool();
    let _a = pool.lease(100).unwrap();
    let _b = pool.lease(100).unwrap();
    let _c = pool.lease(100).unwrap();

    assert_eq!(pool.available(), 4096 - 300);
}

#[test]
fn rotate_with_outstanding_leases() {
    // Rotate always succeeds even with leases.
    let mut pool = test_pool();

    let _buf0 = pool.lease(64).unwrap();
    pool.rotate().unwrap();

    let _buf1 = pool.lease(64).unwrap();
    pool.rotate().unwrap();

    assert_eq!(pool.epoch(), 2);
    assert_eq!(pool.draining_count(), 2);
}

#[test]
fn lease_or_rotate_auto_rotates() {
    let mut pool = test_pool();

    let _buf = pool.lease(4096).unwrap();
    assert!(pool.lease(1).is_none());

    let buf = pool.lease_or_rotate(64).unwrap();
    assert_eq!(buf.epoch(), 1);
    assert_eq!(pool.epoch(), 1);
}

#[test]
fn collect_sweeps_draining() {
    let mut pool = test_pool();

    pool.rotate().unwrap();
    pool.rotate().unwrap();
    assert_eq!(pool.draining_count(), 2);

    let collected = pool.collect();
    assert_eq!(collected, 2);
    assert_eq!(pool.draining_count(), 0);
}

#[test]
fn cross_thread_release_enables_collection() {
    let mut pool = test_pool();

    let buf = pool.lease(64).unwrap();
    let epoch = buf.epoch();
    let sendable = buf.into_sendable();

    pool.rotate().unwrap();

    // Can't collect: SendableBuffer still alive.
    assert!(pool.collect_epoch(epoch).is_err());

    pool.release_sent(sendable);

    // Now collect_epoch succeeds: outstanding leases == 0.
    pool.collect_epoch(epoch).unwrap();
}

#[test]
fn shrink_cleans_up_arenas() {
    let config = PoolConfig {
        arena_size: 4096,
        initial_arenas: 5,
        max_free_arenas: 1,
        max_total_arenas: 0,
        registration_slots: 32,
        page_size: 4096,
    };
    let mut pool = IouringBufferPool::new(config, NoopHooks, heap_region).unwrap();

    // Use up arenas via rotation.
    pool.rotate().unwrap();
    pool.rotate().unwrap();

    // Collect draining arenas back to free pool.
    let collected = pool.collect();
    assert!(collected >= 2);

    // Shrink should remove excess free arenas.
    let removed = pool.shrink();
    assert!(removed > 0, "should have removed excess free arenas");
}

#[test]
fn pre_register_slots_populates_map() {
    let mut pool = test_pool();
    pool.pre_register_slots();

    // All arenas should have slots assigned.
    let buf = pool.lease(64).unwrap();
    let arena_idx = pool.mgr().current_arena_idx();
    assert!(pool.reg().slot_for_arena(arena_idx).is_some());
    pool.release(buf);
}

#[test]
fn sent_bytes_can_be_read_until_they_are_back() {
    let mut pool = test_pool();
    let mut buf = pool.lease(64).unwrap();
    let epoch = buf.epoch();
    pool.contents_mut(&mut buf).fill(0xCD);
    let sendable = buf.into_sendable();
    pool.rotate().unwrap();
    assert!(pool.collect_epoch(epoch).is_err());
    let slice = pool.sent_contents(&sendable);
    assert_eq!(slice.len(), 64);
    assert!(slice.iter().all(|&b| b == 0xCD));
    pool.release_sent(sendable);
    pool.collect_epoch(epoch).unwrap();
}

#[test]
fn reads_give_back_what_was_written() {
    let mut pool = test_pool();
    let mut a = pool.lease(3).unwrap();
    let mut b = pool.lease(3).unwrap();
    pool.contents_mut(&mut a).copy_from_slice(&[1, 2, 3]);
    pool.contents_mut(&mut b).copy_from_slice(&[4, 5, 6]);
    pool.rotate().unwrap();
    let mut c = pool.lease(3).unwrap();
    pool.contents_mut(&mut c).copy_from_slice(&[7, 8, 9]);
    pool.collect();
    pool.shrink();
    assert_eq!(pool.contents(&a), &[1, 2, 3]);
    assert_eq!(pool.contents(&b), &[4, 5, 6]);
    assert_eq!(pool.contents(&c), &[7, 8, 9]);
    assert_eq!(b.offset(), a.offset() + 3);
}

#[test]
fn held_leases_survive_many_rotations() {
    let mut pool = test_pool();
    let mut held: Vec<LeasedBuffer> = Vec::new();
    for i in 0..10u8 {
        let mut buf = pool.lease_or_rotate(16).unwrap();
        pool.contents_mut(&mut buf).fill(i);
        held.push(buf);
        pool.rotate().unwrap();
        pool.collect();
    }
    for (i, buf) in held.iter().enumerate() {
        assert!(pool.contents(buf).iter().all(|&b| b == i as u8));
        assert_eq!(buf.epoch(), i as u64);
    }
    assert_eq!(pool.draining_count(), 10);
    for buf in held {
        pool.release(buf);
    }
    assert_eq!(pool.collect(), 10);
    assert_eq!(pool.draining_count(), 0);
}

#[test]
fn leases_too_large_for_any_arena() {
    let mut pool = test_pool();
    let err = pool.lease_or_rotate(4097).err().unwrap();
    assert!(matches!(err, TurbineError::ArenaFull { requested: 4097, available: 4096 }));
    // The rotation has happened.
    assert_eq!(pool.epoch(), 1);
}

#[test]
fn lease_or_rotate_reports_the_limit() {
    let config = PoolConfig { initial_arenas: 1, max_total_arenas: 1, ..test_config() };
    let mut pool = IouringBufferPool::new(config, NoopHooks, heap_region).unwrap();
    let _held = pool.lease(4096).unwrap();
    let err = pool.lease_or_rotate(1).err().unwrap();
    assert!(matches!(err, TurbineError::ArenaLimitExceeded { current: 1, max: 1 }));
    assert_eq!(pool.epoch(), 0);
    assert_eq!(pool.draining_count(), 0);
}

#[test]
fn collect_epoch_says_why_not() {
    let mut pool = test_pool();
    let _a = pool.lease(1).unwrap();
    let _b = pool.lease(1).unwrap();
    let err = pool.collect_epoch(5).unwrap_err();
    assert!(matches!(err, TurbineError::EpochNotFound(5)));
    let err = pool.collect_epoch(0).unwrap_err();
    assert!(matches!(err, TurbineError::EpochNotCollectable(0, 2)));
}

#[test]
fn buffers_carry_their_slot() {
    let mut pool = test_pool();
    // Without a registration every buffer is in slot 0.
    assert_eq!(pool.lease(8).unwrap().slot_id(), SlotId::new(0));
    pool.pre_register_slots();
    pool.rotate().unwrap();
    let buf = pool.lease(8).unwrap();
    assert_eq!(buf.arena_idx(), ArenaIdx::new(2));
    assert_eq!(buf.slot_id(), SlotId::new(2));
}

#[test]
fn new_arenas_get_slots() {
    let config = PoolConfig { initial_arenas: 1, registration_slots: 2, ..test_config() };
    let mut pool = IouringBufferPool::new(config, NoopHooks, heap_region).unwrap();
    pool.pre_register_slots();
    let _a = pool.lease(8).unwrap();
    pool.rotate().unwrap();
    assert_eq!(pool.reg().slot_for_arena(ArenaIdx::new(1)), Some(SlotId::new(1)));
    let _b = pool.lease(8).unwrap();
    // No slot is left: the rotation succeeds all the same.
    pool.rotate().unwrap();
    assert_eq!(pool.reg().slot_for_arena(ArenaIdx::new(2)), None);
    assert_eq!(pool.lease(8).unwrap().slot_id(), SlotId::new(0));
}

#[test]
fn registration_lists_the_arenas() {
    let mut pool = test_pool();
    let table = pool.register().unwrap();
    assert_eq!(table.len(), 32);
    assert_eq!(table[0], Some(ArenaIdx::new(0)));
    assert_eq!(table[2], Some(ArenaIdx::new(2)));
    assert_eq!(table[3], None);
    let iovecs = pool.iovecs(&table);
    assert_eq!(iovecs[1].unwrap().len(), 4096);
    assert_eq!(iovecs[1].unwrap().as_ptr(), pool.mgr().arena_at(ArenaIdx::new(1)).unwrap().as_iovec().as_ptr());
    assert!(iovecs[3].is_none());
    pool.finish_register(Ok(())).unwrap();
    assert!(pool.reg().is_registered());
    pool.unregister(Ok(())).unwrap();
    assert!(!pool.reg().is_registered());
    assert_eq!(pool.register().unwrap()[2], Some(ArenaIdx::new(2)));
}

#[test]
fn registration_needs_slots_for_all() {
    let config = PoolConfig { initial_arenas: 2, registration_slots: 2, ..test_config() };
    let mut pool = IouringBufferPool::new(config, NoopHooks, heap_region).unwrap();
    let _a = pool.lease(8).unwrap();
    pool.rotate().unwrap();
    let _b = pool.lease(8).unwrap();
    pool.rotate().unwrap(); // a third arena, with the first slot
    let err = pool.register().unwrap_err();
    assert!(matches!(err, TurbineError::NoRegistrationSlot(idx) if idx == ArenaIdx::new(1)));
    let refused = Err(OsError { code: 22, text: "invalid".to_string() });
    let err = pool.finish_register(refused).unwrap_err();
    assert!(matches!(err, TurbineError::Registration(_)));
}

#[test]
fn pool_reports_bad_starts() {
    let config = PoolConfig { initial_arenas: 0, ..test_config() };
    let failure = IouringBufferPool::new(config, NoopHooks, heap_region).err().unwrap();
    assert!(matches!(failure.error, TurbineError::InvalidConfig(_)));
    let broken = |_: usize| Err(OsError { code: 12, text: "no memory".to_string() });
    let failure = IouringBufferPool::new(test_config(), NoopHooks, broken).err().unwrap();
    assert!(matches!(failure.error, TurbineError::Mmap(_)));
}

#[test]
fn pool_refuses_too_many_slots() {
    let config = PoolConfig { registration_slots: 65, ..test_config() };
    let failure = IouringBufferPool::new(config, NoopHooks, heap_region).err().unwrap();
    assert!(matches!(
        &failure.error,
        TurbineError::InvalidConfig(rule) if rule == "registration_slots (65) must be <= 64"
    ));
    let config = PoolConfig { registration_slots: 64, ..test_config() };
    let pool = IouringBufferPool::new(config, NoopHooks, heap_region).unwrap();
    assert_eq!((pool.epoch(), pool.available(), pool.draining_count()), (0, 4096, 0));
}

#[test]
fn pool_hands_memory_back_if_it_cannot_start() {
    let left = std::cell::Cell::new(1);
    let source = |size: usize| {
        if left.get() == 0 {
            return Err(OsError { code: 12, text: "no memory".to_string() });
        }
        left.set(left.get() - 1);
        heap_region(size)
    };
    let failure = IouringBufferPool::new(test_config(), NoopHooks, source).err().unwrap();
    assert!(matches!(failure.error, TurbineError::Mmap(_)));
    assert_eq!(failure.mapped.len(), 1);
}

#[test]
fn advice_never_names_leased_bytes() {
    let config = PoolConfig { initial_arenas: 1, ..test_config() };
    let mut pool = IouringBufferPool::new(config, NoopHooks, heap_region).unwrap();
    pool.rotate().unwrap();
    pool.rotate().unwrap();
    let buf = pool.lease(64).unwrap();
    assert_eq!(buf.arena_idx(), ArenaIdx::new(0));
    assert!(pool.take_advice().is_empty());
    pool.release(buf);
}

#[test]
fn advice_spares_the_front_of_a_reused_arena() {
    let config = PoolConfig { arena_size: 8192, initial_arenas: 1, ..test_config() };
    let mut pool = IouringBufferPool::new(config, NoopHooks, heap_region).unwrap();
    let first = pool.lease(8192 - 4096).unwrap();
    pool.rotate().unwrap();
    pool.release(first);
    let full = pool.lease(8192).unwrap();
    // No room: the first arena is swept and takes the lease.
    let buf = pool.lease_or_rotate(4096).unwrap();
    assert_eq!(buf.arena_idx(), ArenaIdx::new(0));
    let advice = pool.take_advice();
    assert_eq!(advice.len(), 1);
    assert_eq!(advice[0].0, ArenaIdx::new(0));
    assert_eq!((advice[0].1.start, advice[0].1.len), (4096, 4096));
    assert!(buf.offset() + buf.len() <= advice[0].1.start);
    pool.release(buf);
    pool.release(full);
}

#[test]
fn unregistering_gives_back_slots_that_nobody_holds() {
    let config = PoolConfig { initial_arenas: 2, registration_slots: 4, ..test_config() };
    let mut pool = IouringBufferPool::new(config, NoopHooks, heap_region).unwrap();
    for _ in 0..10 {
        // Both arenas get a second slot.
        pool.pre_register_slots();
        pool.register().unwrap();
        pool.finish_register(Ok(())).unwrap();
        pool.unregister(Ok(())).unwrap();
    }
    // And again with an arena that is registered as it is mapped.
    pool.lease(8).unwrap();
    pool.rotate().unwrap();
    pool.lease(8).unwrap();
    pool.rotate().unwrap();
    assert_eq!(pool.reg().slot_for_arena(ArenaIdx::new(2)), Some(SlotId::new(0)));
    pool.register().unwrap();
    assert_eq!(pool.reg().slot_for_arena(ArenaIdx::new(2)), Some(SlotId::new(3)));
    pool.finish_register(Ok(())).unwrap();
    pool.unregister(Ok(())).unwrap();
    let table = pool.register().unwrap();
    let expected: Vec<Option<ArenaIdx>> =
        vec![Some(ArenaIdx::new(0)), Some(ArenaIdx::new(1)), Some(ArenaIdx::new(2)), None];
    assert_eq!(table, expected);
}

#[test]
fn failed_lease_counts_nothing() {
    let mut pool = test_pool();
    assert!(pool.lease(5000).is_none());
    assert_eq!(pool.mgr().current_arena().lease_count(), 0);
    assert_eq!(pool.available(), 4096);
    // What is not needed is not asked for: the bytes fit, so nothing rotates.
    let buf = pool.lease_or_rotate(4096).unwrap();
    assert_eq!((pool.epoch(), pool.reg().generation()), (0, 0));
    pool.release(buf);
}

#[test]
fn pre_registering_counts_only_missing_slots() {
    let config = PoolConfig { registration_slots: 3, ..test_config() };
    let mut pool = IouringBufferPool::new(config, NoopHooks, heap_region).unwrap();
    pool.pre_register_slots();
    assert_eq!(pool.reg().generation(), 3);
    // No slot is left, and none is missing.
    pool.pre_register_slots();
    assert_eq!(pool.reg().generation(), 3);
    for idx in 0..3 {
        assert!(pool.reg().slot_for_arena(ArenaIdx::new(idx)).is_some());
    }
}

#[test]
fn memory_comes_back() {
    let config = PoolConfig { arena_size: 8192, max_free_arenas: 0, ..test_config() };
    let mut pool = IouringBufferPool::new(config, NoopHooks, heap_region).unwrap();
    let buf = pool.lease(10).unwrap();
    pool.rotate().unwrap();
    pool.release(buf);
    assert_eq!(pool.collect(), 1);
    let advice = pool.take_advice();
    assert_eq!(advice.len(), 1);
    assert_eq!(advice[0].0, ArenaIdx::new(0));
    assert_eq!((advice[0].1.start, advice[0].1.len), (4096, 4096));
    assert_eq!(pool.shrink(), 2);
    assert_eq!(pool.take_unmapped().len(), 2);
    let _leaked = pool.lease(1).unwrap();
    let closed = pool.close();
    assert_eq!(closed.len(), 1);
    assert_eq!(closed[0].1, 1);
}

#[test]
fn quick_start() {
    let mut pool = IouringBufferPool::new(PoolConfig::default(), NoopHooks, heap_region).unwrap();
    let mut buf = pool.lease_or_rotate(4096).unwrap();
    pool.contents_mut(&mut buf)[..5].copy_from_slice(b"hello");
    pool.rotate().unwrap();
    assert_eq!(&pool.contents(&buf)[..5], b"hello");
    pool.release(buf);
    pool.collect_epoch(0).unwrap();
}

#[test]
fn sweeping_twice_frees_nothing_more() {
    let mut pool = test_pool();
    let _held = pool.lease(8).unwrap();
    for _ in 0..5 {
        pool.rotate().unwrap();
    }
    let first = pool.collect();
    assert!(first > 0);
    let draining = pool.draining_count();
    assert_eq!(pool.collect(), 0);
    assert_eq!(pool.draining_count(), draining);
}

#[test]
fn idle_arenas_are_collected_behind_leased_ones() {
    let config = PoolConfig { initial_arenas: 8, ..test_config() };
    let mut pool = IouringBufferPool::new(config, NoopHooks, heap_region).unwrap();
    let _held = pool.lease(8).unwrap();
    pool.rotate().unwrap(); // epoch 0, leased
    let idle = pool.mgr().current_arena_idx();
    pool.rotate().unwrap(); // epoch 1, idle
    assert_eq!(pool.collect(), 0);
    pool.rotate().unwrap();
    pool.rotate().unwrap(); // the current epoch is 4
    assert_eq!(pool.collect(), 3);
    assert_eq!(pool.draining_count(), 1);
    assert_eq!(pool.mgr().arena_at(idle).unwrap().lease_count(), 0);
}

#[test]
fn recycled_arenas_start_over() {
    let config = PoolConfig { initial_arenas: 2, ..test_config() };
    let mut pool = IouringBufferPool::new(config, NoopHooks, heap_region).unwrap();
    let mut buf = pool.lease(16).unwrap();
    pool.contents_mut(&mut buf).fill(9);
    pool.release(buf);
    pool.rotate().unwrap();
    pool.rotate().unwrap(); // sweeps the first arena and takes it again
    assert_eq!(pool.mgr().current_arena_idx(), ArenaIdx::new(0));
    assert_eq!(pool.available(), 4096);
    let again = pool.lease(16).unwrap();
    assert_eq!((again.offset(), again.buf_id(), again.epoch()), (0, 0, 2));
    // The memory is not cleared.
    assert!(pool.contents(&again).iter().all(|&b| b == 9));
}

#[test]
fn buffers_carry_the_slot_that_the_ring_knows() {
    let mut pool = test_pool();
    let table = pool.register().unwrap();
    pool.finish_register(Ok(())).unwrap();
    for _ in 0..4 {
        let buf = pool.lease(8).unwrap();
        assert_eq!(table[buf.slot_id().as_u16() as usize], Some(buf.arena_idx()));
        pool.release(buf);
        pool.rotate().unwrap();
        pool.collect();
    }
}

#[test]
fn giving_back_leaves_only_used_bytes() {
    let mut pool = test_pool();
    let buf = pool.lease(100).unwrap();
    pool.release(buf);
    assert_eq!(pool.available(), 3996);
    assert_eq!(pool.mgr().current_arena().lease_count(), 0);
    pool.rotate().unwrap();
    assert_eq!(pool.collect(), 1);
}

/// Compile-time assertion that IouringBufferPool is !Send.
#[test]
fn pool_is_not_send() {
    <HeapPool as Probe<_>>::probe();
}

#[test]
fn only_sendable_buffers_are_send() {
    <LeasedBuffer as Probe<_>>::probe();
    assert_send::<SendableBuffer>();
}
