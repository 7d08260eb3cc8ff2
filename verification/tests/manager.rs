use std::cell::Cell;
use turbine::epoch::manager::ArenaManager;
use turbine::{ArenaIdx, ArenaState, OsError, PageRange, PoolConfig, TurbineError};

fn heap_region(size: usize) -> Result<&'static mut [u8], OsError> {
    Ok(Box::leak(vec![0u8; size].into_boxed_slice()))
}

fn test_config() -> PoolConfig {
    PoolConfig {
        arena_size: 4096,
        initial_arenas: 3,
        max_free_arenas: 4,
        max_total_arenas: 0,
        registration_slots: 32,
        page_size: 4096,
    }
}

#[test]
fn new_creates_initial_arenas() {
    let mgr = ArenaManager::new(&test_config(), heap_region).unwrap();
    assert_eq!(mgr.epoch(), 0);
    assert_eq!(mgr.current_arena_idx(), ArenaIdx::new(0));
    assert_eq!(mgr.current_arena().state(), ArenaState::Writable);
    assert_eq!(mgr.current_arena().epoch(), 0);
    assert_eq!(mgr.free_count(), 2); // 3 initial - 1 writable
    assert_eq!(mgr.draining_count(), 0);
    assert_eq!(mgr.live_arenas().len(), 3);
}

#[test]
fn rotate_retires_and_activates() {
    let mut mgr = ArenaManager::new(&test_config(), heap_region).unwrap();
    let old_idx = mgr.current_arena_idx();

    let result = mgr.rotate().unwrap();
    assert_eq!(result.retired_epoch, 0);
    assert_eq!(result.new_epoch, 1);
    assert_eq!(result.new_arena_idx, None); // reused from free pool

    // Old arena is retired and draining.
    assert_eq!(mgr.arena_at(old_idx).unwrap().state(), ArenaState::Retired);
    assert_eq!(mgr.draining_count(), 1);

    // New arena is writable.
    assert_eq!(mgr.current_arena().state(), ArenaState::Writable);
    assert_eq!(mgr.current_arena().epoch(), 1);
    assert_eq!(mgr.epoch(), 1);
    assert_eq!(mgr.free_count(), 1); // started with 2, used 1
}

#[test]
fn rotate_with_outstanding_leases_succeeds() {
    let mut mgr = ArenaManager::new(&test_config(), heap_region).unwrap();

    // Acquire leases on the current arena.
    mgr.current_arena_mut().acquire_lease();
    mgr.current_arena_mut().acquire_lease();

    // Rotate should succeed even with outstanding leases.
    let result = mgr.rotate().unwrap();
    assert_eq!(result.retired_epoch, 0);
    assert_eq!(result.new_epoch, 1);

    // Old arena is draining with leases still held.
    let old = mgr.arena_at(ArenaIdx::new(0)).unwrap();
    assert_eq!(old.state(), ArenaState::Retired);
    assert_eq!(old.lease_count(), 2);
}

#[test]
fn rotate_reuses_free_pool() {
    let mut mgr = ArenaManager::new(&test_config(), heap_region).unwrap();

    // Rotate to use up free arenas, then collect to recycle.
    mgr.rotate().unwrap(); // epoch 1, free=1
    mgr.rotate().unwrap(); // epoch 2, free=0

    // Collect all draining (no leases held).
    let collected = mgr.collect();
    assert_eq!(collected, 2);
    assert_eq!(mgr.free_count(), 2);
    assert_eq!(mgr.draining_count(), 0);

    // Next rotate should reuse from free pool.
    let result = mgr.rotate().unwrap();
    assert_eq!(result.new_arena_idx, None); // reused, not new
}

#[test]
fn rotate_allocs_new_when_free_empty() {
    let config = PoolConfig {
        initial_arenas: 1,
        ..test_config()
    };
    let mut mgr = ArenaManager::new(&config, heap_region).unwrap();
    assert_eq!(mgr.free_count(), 0);

    // Hold a lease so auto-collect in rotate() can't recycle the retired arena.
    mgr.current_arena_mut().acquire_lease();

    let result = mgr.rotate().unwrap();
    assert!(result.new_arena_idx.is_some()); // had to allocate
    assert_eq!(mgr.live_arenas().len(), 2);

    // Clean up lease.
    mgr.arena_at_mut(ArenaIdx::new(0)).unwrap().release_lease();
}

#[test]
fn rotate_fails_at_max_arenas() {
    let config = PoolConfig {
        initial_arenas: 2,
        max_total_arenas: 2,
        ..test_config()
    };
    let mut mgr = ArenaManager::new(&config, heap_region).unwrap();

    // Hold lease on arena 0 before rotating it away.
    mgr.arena_at_mut(ArenaIdx::new(0)).unwrap().acquire_lease();

    // Use the one free arena.
    mgr.rotate().unwrap();
    assert_eq!(mgr.free_count(), 0);

    // Hold lease on arena 1 (current) so auto-collect can't recycle it either.
    mgr.current_arena_mut().acquire_lease();

    // Next rotate: no free arenas, auto-collect finds nothing, at the limit.
    let err = mgr.rotate().unwrap_err();
    assert!(
        matches!(err, TurbineError::ArenaLimitExceeded { current: 2, max: 2 }),
        "expected ArenaLimitExceeded, got: {err:?}"
    );

    // Clean up leases.
    mgr.arena_at_mut(ArenaIdx::new(0)).unwrap().release_lease();
    mgr.arena_at_mut(ArenaIdx::new(1)).unwrap().release_lease();
}

#[test]
fn collect_moves_zero_lease_to_free() {
    let mut mgr = ArenaManager::new(&test_config(), heap_region).unwrap();

    // Hold a lease so auto-collect in rotate() doesn't collect arena 0.
    mgr.current_arena_mut().acquire_lease();
    mgr.rotate().unwrap();

    assert_eq!(mgr.draining_count(), 1);

    // Release the lease, then collect explicitly.
    mgr.arena_at_mut(ArenaIdx::new(0)).unwrap().release_lease();
    let collected = mgr.collect();
    assert_eq!(collected, 1);
    assert_eq!(mgr.draining_count(), 0);
    // free_pool: 1 remaining from initial + 1 just collected = 2
    assert_eq!(mgr.free_count(), 2);
}

#[test]
fn collect_retains_leased_arenas() {
    let mut mgr = ArenaManager::new(&test_config(), heap_region).unwrap();
    mgr.current_arena_mut().acquire_lease();
    mgr.rotate().unwrap();

    // Arena 0 has a lease, should not be collected.
    let collected = mgr.collect();
    assert_eq!(collected, 0);
    assert_eq!(mgr.draining_count(), 1);

    // Release the lease, now it should collect.
    mgr.arena_at_mut(ArenaIdx::new(0)).unwrap().release_lease();
    let collected = mgr.collect();
    assert_eq!(collected, 1);
    assert_eq!(mgr.draining_count(), 0);
}

#[test]
fn shrink_removes_excess_free() {
    let config = PoolConfig {
        initial_arenas: 1,
        max_free_arenas: 1,
        ..test_config()
    };
    let mut mgr = ArenaManager::new(&config, heap_region).unwrap();

    // Hold leases during rotations so auto-collect can't recycle them.
    let mut leased_indices = Vec::new();
    for _ in 0..4 {
        let idx = mgr.current_arena_idx();
        mgr.current_arena_mut().acquire_lease();
        leased_indices.push(idx);
        mgr.rotate().unwrap();
    }

    // Release all leases, then collect to fill free pool.
    for idx in &leased_indices {
        mgr.arena_at_mut(*idx).unwrap().release_lease();
    }
    mgr.collect();
    let free_before = mgr.free_count();
    assert!(free_before > 1, "need excess free arenas for test");

    let removed = mgr.shrink();
    assert_eq!(removed, free_before - 1); // shrink to max_free=1
    assert_eq!(mgr.free_count(), 1);
    assert_eq!(mgr.take_unmapped().len(), removed);
}

#[test]
fn pointer_stability() {
    let mut mgr = ArenaManager::new(&test_config(), heap_region).unwrap();

    // Allocate from the first arena and get a pointer.
    mgr.current_arena_mut().acquire_lease();
    let (start, _) = mgr.current_arena_mut().allocate(64).unwrap();
    let data_ptr = mgr.current_arena().slice(start, 64).as_ptr();

    // Rotate many times, growing the slab.
    for _ in 0..20 {
        mgr.rotate().unwrap();
    }

    // The leased bytes are still at the same address.
    let arena = mgr.arena_at_mut(ArenaIdx::new(0)).unwrap();
    assert_eq!(arena.slice(start, 64).as_ptr(), data_ptr);

    // They can still be written and read.
    arena.slice_mut(start, 64)[0] = 42;
    assert_eq!(arena.slice(start, 64)[0], 42);

    arena.release_lease();
}

#[test]
fn collect_partial_draining() {
    let config = PoolConfig {
        initial_arenas: 4,
        max_free_arenas: 8,
        ..test_config()
    };
    let mut mgr = ArenaManager::new(&config, heap_region).unwrap();

    // Rotate 3 times, holding leases on even-epoch arenas.
    mgr.current_arena_mut().acquire_lease();
    mgr.rotate().unwrap(); // epoch 0 is draining

    mgr.rotate().unwrap(); // epoch 1 is draining

    mgr.current_arena_mut().acquire_lease();
    mgr.rotate().unwrap(); // epoch 2 is draining

    assert_eq!(mgr.draining_count(), 3);

    // Collect should only free the arena with no leases (epoch 1).
    let collected = mgr.collect();
    assert_eq!(collected, 1);
    assert_eq!(mgr.draining_count(), 2);

    // Clean up leases.
    mgr.arena_at_mut(ArenaIdx::new(0)).unwrap().release_lease();
    mgr.arena_at_mut(ArenaIdx::new(2)).unwrap().release_lease();

    // Now collect should free both.
    let collected = mgr.collect();
    assert_eq!(collected, 2);
    assert_eq!(mgr.draining_count(), 0);
}

#[test]
fn collect_with_remote_returns() {
    let mut mgr = ArenaManager::new(&test_config(), heap_region).unwrap();

    // Acquire leases on arena 0 (simulating buffers sent cross-thread).
    mgr.current_arena_mut().acquire_lease();
    mgr.current_arena_mut().acquire_lease();
    let arena0_idx = mgr.current_arena_idx();

    mgr.rotate().unwrap(); // arena 0 is draining with 2 leases

    // Acquire a lease on the next arena too.
    mgr.current_arena_mut().acquire_lease();
    let arena1_idx = mgr.current_arena_idx();

    mgr.rotate().unwrap(); // it is draining with 1 lease

    assert_eq!(mgr.draining_count(), 2);

    // Simulate cross-thread release of one lease on arena 0.
    mgr.arena_at_mut(arena0_idx).unwrap().remote_release();
    let collected = mgr.collect();
    assert_eq!(collected, 0); // both arenas still have outstanding leases
    assert_eq!(mgr.draining_count(), 2);

    // Release remaining lease on arena 0 via remote path.
    mgr.arena_at_mut(arena0_idx).unwrap().remote_release();
    let collected = mgr.collect();
    assert_eq!(collected, 1); // arena 0 collected, the other still held
    assert_eq!(mgr.draining_count(), 1);

    // Release the other lease locally.
    mgr.arena_at_mut(arena1_idx).unwrap().release_lease();
    let collected = mgr.collect();
    assert_eq!(collected, 1);
    assert_eq!(mgr.draining_count(), 0);
}

#[test]
fn collect_early_termination_skips_young() {
    let config = PoolConfig {
        initial_arenas: 1,
        max_free_arenas: 16,
        ..test_config()
    };
    let mut mgr = ArenaManager::new(&config, heap_region).unwrap();

    // Build up several epochs so we have old and young draining arenas.
    // Hold leases on all of them to prevent collection.
    let mut leased = Vec::new();
    for _ in 0..6 {
        let idx = mgr.current_arena_idx();
        mgr.current_arena_mut().acquire_lease();
        leased.push(idx);
        mgr.rotate().unwrap();
    }
    // Now: epoch=6, draining=[0,1,2,3,4,5] all with leases held.
    assert_eq!(mgr.draining_count(), 6);
    assert_eq!(mgr.epoch(), 6);

    // Release leases on the old arenas (epochs 0,1,2).
    for &idx in &leased[..3] {
        mgr.arena_at_mut(idx).unwrap().release_lease();
    }

    // The sweep frees the old arenas, passes over epoch 3, and stops at epoch 4.
    let collected = mgr.collect();
    assert_eq!(collected, 3, "old arenas 0,1,2 should be collected");
    assert_eq!(mgr.draining_count(), 3);

    // Release arena 3's lease. Arenas 4,5 still have leases.
    mgr.arena_at_mut(leased[3]).unwrap().release_lease();

    let collected = mgr.collect();
    assert_eq!(collected, 1, "arena 3 should be collected");
    assert_eq!(mgr.draining_count(), 2);

    // Release remaining leases.
    mgr.arena_at_mut(leased[4]).unwrap().release_lease();
    mgr.arena_at_mut(leased[5]).unwrap().release_lease();

    // Final collect: both should be collected now.
    let collected = mgr.collect();
    assert_eq!(collected, 2, "arenas 4,5 should be collected");
    assert_eq!(mgr.draining_count(), 0);
}

#[test]
fn young_leased_arena_hides_those_behind_it() {
    let config = PoolConfig {
        initial_arenas: 4,
        ..test_config()
    };
    let mut mgr = ArenaManager::new(&config, heap_region).unwrap();
    mgr.current_arena_mut().acquire_lease();
    mgr.rotate().unwrap(); // epoch 0, leased
    mgr.rotate().unwrap(); // epoch 1, idle

    // Epoch 0 is within two epochs of the current one.
    assert_eq!(mgr.epoch(), 2);
    assert_eq!(mgr.collect(), 0);
    assert_eq!(mgr.draining_count(), 2);

    // One epoch later it is not.
    mgr.rotate().unwrap();
    assert_eq!(mgr.collect(), 2);
    assert_eq!(mgr.draining_count(), 1);
}

#[test]
fn write_idx_invariant_after_new() {
    let mgr = ArenaManager::new(&test_config(), heap_region).unwrap();
    assert!(mgr.arena_at(mgr.current_arena_idx()).is_some());
}

#[test]
fn write_idx_invariant_after_rotate() {
    let mut mgr = ArenaManager::new(&test_config(), heap_region).unwrap();
    for _ in 0..10 {
        mgr.rotate().unwrap();
        assert!(mgr.arena_at(mgr.current_arena_idx()).is_some());
    }
}

#[test]
fn write_idx_invariant_after_collect() {
    let mut mgr = ArenaManager::new(&test_config(), heap_region).unwrap();
    mgr.rotate().unwrap();
    mgr.rotate().unwrap();
    mgr.collect();
    assert!(mgr.arena_at(mgr.current_arena_idx()).is_some());
}

#[test]
fn write_idx_invariant_after_shrink() {
    let config = PoolConfig {
        initial_arenas: 1,
        max_free_arenas: 0,
        ..test_config()
    };
    let mut mgr = ArenaManager::new(&config, heap_region).unwrap();
    // Rotate several times to accumulate arenas, then collect and shrink.
    for _ in 0..4 {
        mgr.rotate().unwrap();
    }
    mgr.collect();
    mgr.shrink();
    assert!(mgr.arena_at(mgr.current_arena_idx()).is_some());
}

#[test]
fn full_lifecycle() {
    let config = PoolConfig {
        initial_arenas: 2,
        max_free_arenas: 1,
        ..test_config()
    };
    let mut mgr = ArenaManager::new(&config, heap_region).unwrap();

    // Hold leases so auto-collect can't recycle during rotate.
    mgr.current_arena_mut().acquire_lease(); // arena 0

    // Rotate: retire epoch 0.
    let r = mgr.rotate().unwrap();
    assert_eq!(r.retired_epoch, 0);
    assert_eq!(r.new_epoch, 1);

    mgr.current_arena_mut().acquire_lease(); // arena 1

    // Rotate again: free pool empty, auto-collect finds nothing (leases held).
    let r = mgr.rotate().unwrap();
    assert_eq!(r.retired_epoch, 1);
    assert!(r.new_arena_idx.is_some());

    // Release leases, then collect: both retired arenas have no leases.
    mgr.arena_at_mut(ArenaIdx::new(0)).unwrap().release_lease();
    mgr.arena_at_mut(ArenaIdx::new(1)).unwrap().release_lease();
    let collected = mgr.collect();
    assert_eq!(collected, 2);
    assert_eq!(mgr.free_count(), 2);

    // Shrink: max_free=1, so one should be dropped.
    let removed = mgr.shrink();
    assert_eq!(removed, 1);
    assert_eq!(mgr.free_count(), 1);

    // Rotate reuses from free pool.
    let r = mgr.rotate().unwrap();
    assert_eq!(r.new_arena_idx, None);
}

#[test]
fn manager_reports_bad_starts() {
    let config = PoolConfig { arena_size: 100, ..test_config() };
    let failure = ArenaManager::new(&config, heap_region).err().unwrap();
    assert!(matches!(failure.error, TurbineError::InvalidConfig(_)));

    // The third mapping fails.
    let mapped = Cell::new(0);
    let source = |size: usize| {
        mapped.set(mapped.get() + 1);
        if mapped.get() < 3 {
            heap_region(size)
        } else {
            Err(OsError { code: 12, text: "no memory".to_string() })
        }
    };
    let failure = ArenaManager::new(&test_config(), &source).err().unwrap();
    assert!(matches!(&failure.error, TurbineError::Mmap(os) if os.code == 12));
    assert_eq!(mapped.get(), 3);
}

#[test]
fn failed_rotation_changes_nothing() {
    let config = PoolConfig { initial_arenas: 1, ..test_config() };
    let broken = Cell::new(false);
    let source = |size: usize| {
        if broken.get() {
            Err(OsError { code: 12, text: "no memory".to_string() })
        } else {
            heap_region(size)
        }
    };
    let mut mgr = ArenaManager::new(&config, &source).unwrap();
    broken.set(true);
    let err = mgr.rotate().unwrap_err();
    assert!(matches!(err, TurbineError::Mmap(_)));
    assert_eq!(mgr.epoch(), 0);
    assert_eq!(mgr.current_arena().state(), ArenaState::Writable);
    assert_eq!(mgr.draining_count(), 0);
    broken.set(false);
    assert_eq!(mgr.rotate().unwrap().new_epoch, 1);
}

#[test]
fn gaps_of_the_slab_are_filled() {
    let config = PoolConfig { max_free_arenas: 0, ..test_config() };
    let mut mgr = ArenaManager::new(&config, heap_region).unwrap();
    assert_eq!(mgr.shrink(), 2);
    assert!(mgr.arena_at(ArenaIdx::new(1)).is_none());
    assert!(mgr.arena_at(ArenaIdx::new(99)).is_none());
    assert!(mgr.arena_at_mut(ArenaIdx::new(2)).is_none());
    mgr.current_arena_mut().acquire_lease();
    let r = mgr.rotate().unwrap();
    assert_eq!(r.new_arena_idx, Some(ArenaIdx::new(1)));
    let live = mgr.live_arenas();
    assert_eq!(live.len(), 2);
    assert_eq!(live[0].0, ArenaIdx::new(0));
    assert_eq!(live[1].0, ArenaIdx::new(1));
    assert_eq!(mgr.current_arena_with_idx().1, ArenaIdx::new(1));
}

#[test]
fn sweep_advises_idle_pages() {
    let config = PoolConfig { arena_size: 3 * 4096, ..test_config() };
    let mut mgr = ArenaManager::new(&config, heap_region).unwrap();
    mgr.current_arena_mut().allocate(5000).unwrap();
    mgr.rotate().unwrap();
    assert_eq!(mgr.collect(), 1);
    assert_eq!(
        mgr.take_advice(),
        vec![(ArenaIdx::new(0), PageRange { start: 8192, len: 4096 })]
    );
    assert!(mgr.take_advice().is_empty());
}

#[test]
fn rotation_advises_the_arena_it_reuses() {
    let config = PoolConfig { arena_size: 3 * 4096, initial_arenas: 1, ..test_config() };
    let mut mgr = ArenaManager::new(&config, heap_region).unwrap();
    mgr.current_arena_mut().allocate(64).unwrap();
    mgr.rotate().unwrap();
    assert!(mgr.take_advice().is_empty());
    // The first arena is swept, and then written again.
    mgr.rotate().unwrap();
    assert_eq!(mgr.current_arena_idx(), ArenaIdx::new(0));
    mgr.current_arena_mut().allocate(4096).unwrap();
    assert_eq!(
        mgr.take_advice(),
        vec![(ArenaIdx::new(0), PageRange { start: 4096, len: 2 * 4096 })]
    );
}

#[test]
fn advice_ends_when_pages_are_used_again() {
    let config = PoolConfig { arena_size: 3 * 4096, initial_arenas: 1, ..test_config() };
    let mut mgr = ArenaManager::new(&config, heap_region).unwrap();
    mgr.current_arena_mut().allocate(64).unwrap();
    mgr.rotate().unwrap();
    mgr.rotate().unwrap();
    assert_eq!(mgr.current_arena_idx(), ArenaIdx::new(0));
    mgr.current_arena_mut().allocate(4097).unwrap();
    assert!(mgr.take_advice().is_empty());
}

#[test]
fn advice_ends_when_an_arena_goes() {
    let config = PoolConfig { initial_arenas: 2, max_free_arenas: 0, ..test_config() };
    let mut mgr = ArenaManager::new(&config, heap_region).unwrap();
    mgr.rotate().unwrap();
    assert_eq!(mgr.collect(), 1);
    assert_eq!(mgr.shrink(), 1);
    assert!(mgr.take_advice().is_empty());
    assert_eq!(mgr.take_unmapped().len(), 1);
}

#[test]
fn leased_arena_stays_through_rotations() {
    let config = PoolConfig { initial_arenas: 1, max_free_arenas: 0, ..test_config() };
    let mut mgr = ArenaManager::new(&config, heap_region).unwrap();
    mgr.current_arena_mut().allocate(100).unwrap();
    mgr.current_arena_mut().acquire_lease();
    let address = mgr.current_arena().as_iovec().as_ptr();
    for _ in 0..20 {
        mgr.rotate().unwrap();
        mgr.collect();
        mgr.shrink();
        assert_eq!(mgr.current_arena().state(), ArenaState::Writable);
        assert_eq!(mgr.current_arena().epoch(), mgr.epoch());
    }
    let arena = mgr.arena_at(ArenaIdx::new(0)).unwrap();
    assert_eq!(arena.as_iovec().as_ptr(), address);
    assert_eq!((arena.epoch(), arena.used(), arena.lease_count()), (0, 100, 1));
}

#[test]
fn failed_setup_hands_memory_back() {
    let left = Cell::new(2);
    let source = |size: usize| {
        if left.get() == 0 {
            return Err(OsError { code: 12, text: "no memory".to_string() });
        }
        left.set(left.get() - 1);
        heap_region(size)
    };
    let failure = ArenaManager::new(&test_config(), source).err().unwrap();
    assert!(matches!(failure.error, TurbineError::Mmap(_)));
    assert_eq!(failure.mapped.len(), 2);
    assert!(failure.mapped.iter().all(|region| region.len() == 4096));
    let bad = PoolConfig { initial_arenas: 0, ..test_config() };
    let failure = ArenaManager::new(&bad, heap_region).err().unwrap();
    assert!(matches!(failure.error, TurbineError::InvalidConfig(_)));
    assert!(failure.mapped.is_empty());
}

#[test]
fn closing_hands_out_what_shrinking_queued() {
    let config = PoolConfig { max_free_arenas: 1, ..test_config() };
    let mut mgr = ArenaManager::new(&config, heap_region).unwrap();
    assert_eq!(mgr.shrink(), 1);
    mgr.current_arena_mut().acquire_lease();
    let closed = mgr.close();
    let leaked: Vec<usize> = closed.iter().map(|(_, leaked)| *leaked).collect();
    assert_eq!(leaked, vec![1, 0, 0]);
    assert!(closed.iter().all(|(region, _)| region.len() == 4096));
}

#[test]
fn epochs_are_found_in_slab_order() {
    let mut mgr = ArenaManager::new(&test_config(), heap_region).unwrap();
    assert_eq!(mgr.find_epoch(0), Some(ArenaIdx::new(0)));
    mgr.rotate().unwrap();
    assert_eq!(mgr.find_epoch(1), Some(mgr.current_arena_idx()));
    assert_eq!(mgr.find_epoch(7), None);
}

#[test]
fn closing_counts_leaks() {
    let mut mgr = ArenaManager::new(&test_config(), heap_region).unwrap();
    mgr.current_arena_mut().acquire_lease();
    mgr.current_arena_mut().acquire_lease();
    let closed = mgr.close();
    assert_eq!(closed.len(), 3);
    assert_eq!(closed[0].1, 2);
    assert_eq!(closed[1].1, 0);
    assert!(closed.iter().all(|(region, _)| region.len() == 4096));
}
