use turbine::{Arena, ArenaState, OsError, PageRange, TurbineError};

fn heap_region(size: usize) -> Result<&'static mut [u8], OsError> {
    Ok(Box::leak(vec![0u8; size].into_boxed_slice()))
}

fn new_arena(size: usize) -> Arena {
    Arena::new(heap_region(size)).unwrap()
}

#[test]
fn alloc_up_to_capacity() {
    let mut arena = new_arena(4096);
    arena.set_state(ArenaState::Writable);

    let (start, id) = arena.allocate(1024).unwrap();
    assert!(!arena.slice(start, 1024).as_ptr().is_null());
    assert_eq!(id, 0);
    assert_eq!(arena.available(), 3072);

    let (_, id2) = arena.allocate(3072).unwrap();
    assert_eq!(id2, 1);
    assert_eq!(arena.available(), 0);
}

#[test]
fn alloc_returns_none_when_full() {
    let mut arena = new_arena(4096);
    arena.set_state(ArenaState::Writable);

    arena.allocate(4096).unwrap();
    assert!(arena.allocate(1).is_none());
}

#[test]
fn lease_count_tracking() {
    let mut arena = new_arena(4096);
    assert_eq!(arena.lease_count(), 0);

    arena.acquire_lease();
    arena.acquire_lease();
    assert_eq!(arena.lease_count(), 2);

    arena.release_lease();
    assert_eq!(arena.lease_count(), 1);

    arena.release_lease();
    assert_eq!(arena.lease_count(), 0);
}

#[test]
fn reset_clears_offset_and_buf_id() {
    let mut arena = new_arena(4096);
    arena.allocate(2048).unwrap();
    assert_eq!(arena.used(), 2048);

    arena.reset();
    assert_eq!(arena.used(), 0);
    assert_eq!(arena.available(), 4096);

    let (_, id) = arena.allocate(100).unwrap();
    assert_eq!(id, 0);
}

#[test]
fn as_iovec_covers_full_capacity() {
    let arena = new_arena(8192);
    let iov = arena.as_iovec();
    assert_eq!(iov.len(), 8192);
    assert_eq!(iov.as_ptr(), arena.slice(0, 0).as_ptr());
}

#[test]
fn remote_release_decrements_outstanding() {
    let mut arena = new_arena(4096);
    arena.acquire_lease();
    arena.acquire_lease();
    assert_eq!(arena.lease_count(), 2);

    arena.remote_release();
    assert_eq!(arena.lease_count(), 1);

    arena.remote_release();
    assert_eq!(arena.lease_count(), 0);
}

#[test]
fn reset_clears_remote_returns() {
    let mut arena = new_arena(4096);
    arena.acquire_lease();
    arena.remote_release();
    assert_eq!(arena.lease_count(), 0);

    arena.reset();
    // After reset, lease_count should be 0 with no remote returns.
    assert_eq!(arena.lease_count(), 0);

    // New leases should work correctly.
    arena.acquire_lease();
    assert_eq!(arena.lease_count(), 1);
    arena.release_lease();
    assert_eq!(arena.lease_count(), 0);
}

#[test]
fn mixed_local_and_remote_release() {
    let mut arena = new_arena(4096);
    arena.set_state(ArenaState::Writable);

    // Acquire 3 leases.
    arena.acquire_lease();
    arena.acquire_lease();
    arena.acquire_lease();
    assert_eq!(arena.lease_count(), 3);

    // Release 1 locally.
    arena.release_lease();
    assert_eq!(arena.lease_count(), 2);

    // Release 2 remotely.
    arena.remote_release();
    assert_eq!(arena.lease_count(), 1);

    arena.remote_release();
    assert_eq!(arena.lease_count(), 0);
}

#[test]
fn has_outstanding_leases_after_reset() {
    let mut arena = new_arena(4096);

    // Acquire leases and verify outstanding.
    arena.acquire_lease();
    arena.acquire_lease();
    assert!(arena.has_outstanding_leases());

    // Simulate cross-thread returns.
    arena.remote_release();
    assert!(arena.has_outstanding_leases());

    arena.remote_release();
    assert!(!arena.has_outstanding_leases());

    // Reset should clear everything.
    arena.reset();
    assert!(!arena.has_outstanding_leases());

    // New leases post-reset should be tracked correctly.
    arena.acquire_lease();
    assert!(arena.has_outstanding_leases());

    arena.release_lease();
    assert!(!arena.has_outstanding_leases());
}

#[test]
fn has_outstanding_leases_fast_check() {
    let mut arena = new_arena(4096);
    assert!(!arena.has_outstanding_leases());

    arena.acquire_lease();
    assert!(arena.has_outstanding_leases());

    arena.acquire_lease();
    assert!(arena.has_outstanding_leases());

    // One remote release: still has 1 outstanding
    arena.remote_release();
    assert!(arena.has_outstanding_leases());

    // Second remote release: now at zero
    arena.remote_release();
    assert!(!arena.has_outstanding_leases());
}

#[test]
fn has_outstanding_leases_with_local_release() {
    let mut arena = new_arena(4096);
    arena.acquire_lease();
    arena.acquire_lease();
    assert!(arena.has_outstanding_leases());

    arena.release_lease();
    assert!(arena.has_outstanding_leases());

    arena.release_lease();
    assert!(!arena.has_outstanding_leases());
}

#[test]
fn capacity_returns_size() {
    let arena = new_arena(8192);
    assert_eq!(arena.capacity(), 8192);
}

#[test]
fn state_transitions() {
    let mut arena = new_arena(4096);
    assert_eq!(arena.state(), ArenaState::Collected); // default from new()

    arena.set_state(ArenaState::Writable);
    assert_eq!(arena.state(), ArenaState::Writable);

    arena.set_state(ArenaState::Retired);
    assert_eq!(arena.state(), ArenaState::Retired);

    arena.set_state(ArenaState::Collected);
    assert_eq!(arena.state(), ArenaState::Collected);
}

#[test]
fn epoch_get_set() {
    let mut arena = new_arena(4096);
    assert_eq!(arena.epoch(), 0);

    arena.set_epoch(42);
    assert_eq!(arena.epoch(), 42);

    arena.set_epoch(u64::MAX);
    assert_eq!(arena.epoch(), u64::MAX);
}

#[test]
fn base_ptr_is_non_null() {
    let arena = new_arena(4096);
    assert!(!arena.as_iovec().as_ptr().is_null());
}

#[test]
fn used_tracks_allocations() {
    let mut arena = new_arena(4096);
    arena.set_state(ArenaState::Writable);
    assert_eq!(arena.used(), 0);

    arena.allocate(100).unwrap();
    assert_eq!(arena.used(), 100);

    arena.allocate(200).unwrap();
    assert_eq!(arena.used(), 300);
}

#[test]
fn advise_free_unused_no_op_when_full() {
    let mut arena = new_arena(4096);
    arena.set_state(ArenaState::Writable);
    arena.allocate(4096).unwrap();
    // start would be aligned up from 4096 = 4096, which equals capacity
    assert_eq!(arena.advise_free_unused(4096), None);
}

#[test]
fn advise_free_unused_with_partial_use() {
    let mut arena = new_arena(4096);
    arena.set_state(ArenaState::Writable);
    arena.allocate(100).unwrap();
    // The used part reaches into the only page.
    assert_eq!(arena.advise_free_unused(4096), None);
}

#[test]
fn advise_free_unused_names_whole_pages() {
    let mut arena = new_arena(4 * 4096);
    assert_eq!(arena.advise_free_unused(4096), Some(PageRange { start: 0, len: 4 * 4096 }));
    arena.allocate(1).unwrap();
    assert_eq!(arena.advise_free_unused(4096), Some(PageRange { start: 4096, len: 3 * 4096 }));
    arena.allocate(4095).unwrap();
    assert_eq!(arena.advise_free_unused(4096), Some(PageRange { start: 4096, len: 3 * 4096 }));
    arena.allocate(4097).unwrap();
    assert_eq!(arena.advise_free_unused(4096), Some(PageRange { start: 12288, len: 4096 }));
    arena.allocate(8000).unwrap();
    assert_eq!(arena.advise_free_unused(4096), None);
}

#[test]
fn arena_state_debug() {
    assert_eq!(format!("{:?}", ArenaState::Writable), "Writable");
    assert_eq!(format!("{:?}", ArenaState::Retired), "Retired");
    assert_eq!(format!("{:?}", ArenaState::Collected), "Collected");
}

#[test]
fn arena_state_clone_eq() {
    let s = ArenaState::Writable;
    let s2 = s.clone();
    assert_eq!(s, s2);
    assert_ne!(ArenaState::Writable, ArenaState::Retired);
}

#[test]
fn remote_returns_ptr_is_stable() {
    let mut arena = new_arena(4096);
    arena.acquire_lease();
    arena.acquire_lease();
    arena.remote_release();
    let p1 = arena.remote_returns();
    arena.allocate(64).unwrap();
    arena.set_state(ArenaState::Retired);
    arena.set_epoch(3);
    arena.release_lease();
    let p2 = arena.remote_returns();
    assert_eq!(p1, 1);
    assert_eq!(p1, p2);
}

#[test]
fn leases_add_up_in_any_order() {
    let mut arena = new_arena(4096);
    for _ in 0..5 {
        arena.acquire_lease();
    }
    arena.remote_release();
    arena.release_lease();
    arena.allocate(10).unwrap();
    arena.acquire_lease();
    arena.set_state(ArenaState::Retired);
    arena.remote_release();
    assert_eq!(arena.lease_count(), 6 - 1 - 2);
}

#[test]
fn remote_returns_count_up() {
    let mut arena = new_arena(4096);
    arena.acquire_lease();
    arena.acquire_lease();
    arena.remote_release();
    assert_eq!(arena.remote_returns(), 1);
    arena.release_lease();
    assert_eq!(arena.remote_returns(), 1);
    arena.reset();
    assert_eq!(arena.remote_returns(), 0);
}

#[test]
fn alloc_zero_bytes() {
    let mut arena = new_arena(4096);
    arena.set_state(ArenaState::Writable);
    let (start, id) = arena.allocate(0).unwrap();
    assert!(!arena.slice(start, 0).as_ptr().is_null());
    assert_eq!(id, 0);
    assert_eq!(arena.used(), 0);
    assert_eq!(arena.available(), 4096);
}

#[test]
fn buf_id_wraps() {
    let mut arena = new_arena(4096);
    arena.set_state(ArenaState::Writable);
    // Allocate many zero-size buffers to check buf_id increments
    for expected in 0..10u32 {
        let (_, id) = arena.allocate(0).unwrap();
        assert_eq!(id, expected);
    }
}

#[test]
fn allocations_are_contiguous() {
    let mut arena = new_arena(4096);
    arena.set_state(ArenaState::Writable);

    let (p1, _) = arena.allocate(64).unwrap();
    let (p2, _) = arena.allocate(64).unwrap();

    let diff = p2 - p1;
    assert_eq!(diff, 64);
}

#[test]
fn failed_mapping_is_reported() {
    let failed = Err(OsError { code: 12, text: "out of memory".to_string() });
    let err = Arena::new(failed).err().unwrap();
    assert!(matches!(&err, TurbineError::Mmap(os) if os.code == 12));
    assert_eq!(err.to_string(), "mmap failed: out of memory");
}

#[test]
fn writes_land_in_their_window() {
    let mut arena = new_arena(64);
    arena.slice_mut(8, 4).copy_from_slice(&[1, 2, 3, 4]);
    assert_eq!(arena.slice(8, 4), &[1, 2, 3, 4]);
    assert_eq!(arena.slice(7, 6), &[0, 1, 2, 3, 4, 0]);
}

#[test]
fn closing_hands_memory_back() {
    let mut arena = new_arena(128);
    arena.acquire_lease();
    arena.acquire_lease();
    arena.remote_release();
    arena.slice_mut(0, 2).copy_from_slice(&[9, 8]);
    let (region, leaked) = arena.close();
    assert_eq!(region.len(), 128);
    assert_eq!(&region[..3], &[9, 8, 0]);
    assert_eq!(leaked, 1);
}
