use turbine::{ArenaState, EpochClock, OsError, PoolConfig, TurbineError};

fn heap_region(size: usize) -> Result<&'static mut [u8], OsError> {
    Ok(Box::leak(vec![0u8; size].into_boxed_slice()))
}

fn no_region(_size: usize) -> Result<&'static mut [u8], OsError> {
    Err(OsError { code: 12, text: "no memory".to_string() })
}

fn test_config(count: usize) -> PoolConfig {
    PoolConfig {
        arena_size: 4096,
        initial_arenas: count,
        page_size: 4096,
        ..Default::default()
    }
}

fn test_clock(count: usize) -> EpochClock {
    EpochClock::new(&test_config(count), heap_region).unwrap()
}

#[test]
fn initial_epoch_is_zero() {
    let clock = test_clock(2);
    assert_eq!(clock.epoch(), 0);
}

#[test]
fn rotate_advances_monotonically() {
    let mut clock = test_clock(3);

    let (retired, active) = clock.rotate().unwrap();
    assert_eq!(retired, 0);
    assert_eq!(active, 1);

    let (retired, active) = clock.rotate().unwrap();
    assert_eq!(retired, 1);
    assert_eq!(active, 2);
}

#[test]
fn rotate_wraps_around_ring() {
    let mut clock = test_clock(2);

    clock.rotate().unwrap(); // epoch 0 to 1, idx 0 to 1
    clock.rotate().unwrap(); // epoch 1 to 2, idx 1 to 0 (wraps)

    assert_eq!(clock.epoch(), 2);
    // The arena at index 0 should now be writable with epoch 2.
    assert_eq!(clock.current_arena().epoch(), 2);
    assert_eq!(clock.current_arena().state(), ArenaState::Writable);
}

#[test]
fn rotate_blocked_by_outstanding_leases() {
    let mut clock = test_clock(2);

    // Acquire a lease on epoch 0's arena (index 0).
    clock.current_arena_mut().acquire_lease();

    // Rotate to epoch 1 (arena index 1): succeeds.
    clock.rotate().unwrap();

    // Rotate again would recycle arena 0 which still has a lease: must fail.
    let err = clock.rotate().unwrap_err();
    assert!(matches!(err, TurbineError::EpochNotCollectable(0, 1)));

    clock.arena_for_epoch_mut(0).unwrap().release_lease();
}

#[test]
fn try_collect_succeeds_with_no_leases() {
    let mut clock = test_clock(3);
    clock.rotate().unwrap(); // retire epoch 0

    clock.try_collect(0).unwrap();
    let arena = clock.arena_for_epoch(0).unwrap();
    assert_eq!(arena.state(), ArenaState::Collected);
}

#[test]
fn try_collect_fails_with_outstanding_leases() {
    let mut clock = test_clock(3);
    clock.current_arena_mut().acquire_lease();
    clock.rotate().unwrap(); // retire epoch 0, which has a lease

    let err = clock.try_collect(0).unwrap_err();
    assert!(matches!(err, TurbineError::EpochNotCollectable(0, 1)));

    clock.arena_for_epoch_mut(0).unwrap().release_lease();
}

#[test]
fn retained_epochs_lists_retired_arenas() {
    let mut clock = test_clock(4);
    clock.rotate().unwrap(); // retire 0
    clock.rotate().unwrap(); // retire 1

    let retained: Vec<u64> = clock.retained_epochs();
    assert!(retained.contains(&0));
    assert!(retained.contains(&1));
    assert_eq!(retained.len(), 2);
}

#[test]
fn arena_for_epoch_not_found() {
    let clock = test_clock(2);
    assert!(clock.arena_for_epoch(99).is_err());
}

#[test]
fn retained_epochs_are_oldest_first() {
    let mut clock = test_clock(3);
    for _ in 0..4 {
        clock.rotate().unwrap();
    }
    // Epoch 3 sits in the first arena of the ring, epoch 2 in the last.
    assert_eq!(clock.current_arena_idx(), 1);
    assert_eq!(clock.retained_epochs(), vec![2, 3]);
    clock.try_collect(2).unwrap();
    assert_eq!(clock.retained_epochs(), vec![3]);
}

#[test]
fn ring_remembers_its_length() {
    let mut clock = test_clock(3);
    for _ in 0..5 {
        clock.rotate().unwrap();
    }
    assert_eq!(clock.arena_count(), 3);
    assert_eq!(clock.arenas().len(), 3);
    for epoch in 3..6 {
        assert_eq!(clock.arena_for_epoch(epoch).unwrap().epoch(), epoch);
    }
    let err = clock.arena_for_epoch(2).err().unwrap();
    assert!(matches!(err, TurbineError::EpochNotFound(2)));
    let err = clock.try_collect(6).unwrap_err();
    assert!(matches!(err, TurbineError::EpochNotFound(6)));
    assert!(clock.arena_at(2).is_some());
    assert!(clock.arena_at(3).is_none());
}

#[test]
fn blocked_rotation_stays_in_its_epoch() {
    let mut clock = test_clock(1);
    clock.current_arena_mut().acquire_lease();
    let err = clock.rotate().unwrap_err();
    assert!(matches!(err, TurbineError::EpochNotCollectable(0, 1)));
    assert_eq!(clock.epoch(), 0);
    assert_eq!(clock.current_arena().state(), ArenaState::Retired);
    clock.current_arena_mut().remote_release();
    assert_eq!(clock.rotate().unwrap(), (0, 1));
    assert_eq!(clock.current_arena().state(), ArenaState::Writable);
}

#[test]
fn epochs_go_round_the_ring() {
    let mut clock = test_clock(3);
    for turn in 1..=10u64 {
        clock.rotate().unwrap();
        assert_eq!(clock.epoch(), turn);
        assert_eq!(clock.current_arena_idx() as u64, turn % 3);
        for epoch in turn.saturating_sub(2)..=turn {
            let at = clock.arena_at((epoch % 3) as usize).unwrap();
            assert_eq!(at.epoch(), epoch);
            let found = clock.arena_for_epoch(epoch).unwrap();
            assert_eq!(found.as_iovec().as_ptr(), at.as_iovec().as_ptr());
        }
    }
}

#[test]
fn closing_a_clock_gives_its_memory() {
    let mut clock = test_clock(3);
    clock.rotate().unwrap();
    clock.current_arena_mut().acquire_lease();
    let closed = clock.close();
    let leaked: Vec<usize> = closed.iter().map(|(_, leaked)| *leaked).collect();
    assert_eq!(leaked, vec![0, 1, 0]);
}

#[test]
fn clock_reports_bad_starts() {
    let failure = EpochClock::new(&test_config(0), heap_region).err().unwrap();
    assert!(matches!(failure.error, TurbineError::InvalidConfig(_)));
    let failure = EpochClock::new(&test_config(2), no_region).err().unwrap();
    assert!(matches!(failure.error, TurbineError::Mmap(_)));
    assert!(failure.mapped.is_empty());
}
