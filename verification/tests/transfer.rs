use turbine::{Arena, ArenaIdx, ArenaState, LeasedBuffer, OsError, SendableBuffer, SlotId};

fn heap_region(size: usize) -> Result<&'static mut [u8], OsError> {
    Ok(Box::leak(vec![0u8; size].into_boxed_slice()))
}

fn writable_arena(epoch: u64) -> Arena {
    let mut arena = Arena::new(heap_region(4096)).unwrap();
    arena.set_state(ArenaState::Writable);
    arena.set_epoch(epoch);
    arena
}

fn lease(arena: &mut Arena, len: usize) -> LeasedBuffer {
    LeasedBuffer::lease_from(arena, len, SlotId::new(0), ArenaIdx::new(0)).unwrap()
}

fn sendable(arena: &mut Arena, len: usize) -> SendableBuffer {
    lease(arena, len).into_sendable()
}

#[test]
fn sendable_buffer_drop_decrements_via_atomic() {
    let mut arena = writable_arena(1);
    let buf = sendable(&mut arena, 64);
    // lease still held
    assert_eq!(arena.lease_count(), 1);
    // After the SendableBuffer is given back, remote_returns incremented.
    buf.release(&mut arena);
    assert_eq!(arena.lease_count(), 0);
}

#[test]
fn sendable_buffer_len_and_epoch() {
    let mut arena = writable_arena(42);
    let buf = sendable(&mut arena, 128);
    assert_eq!(buf.len(), 128);
    assert!(!buf.is_empty());
    assert_eq!(buf.epoch(), 42);
}

#[test]
fn sendable_buffer_empty() {
    let mut arena = writable_arena(1);
    let buf = sendable(&mut arena, 0);
    assert_eq!(buf.len(), 0);
    assert!(buf.is_empty());
    assert_eq!(buf.epoch(), 1);
}

#[test]
fn sendable_buffer_as_slice() {
    let mut arena = writable_arena(1);
    let mut leased = lease(&mut arena, 16);

    // Write recognizable data
    leased.as_mut_slice(&mut arena).fill(0xFE);

    let buf = leased.into_sendable();
    let slice = buf.as_slice(&arena);
    assert_eq!(slice.len(), 16);
    assert!(slice.iter().all(|&b| b == 0xFE));
}

#[test]
fn multiple_sendable_buffers_decrement() {
    let mut arena = writable_arena(1);
    let b1 = sendable(&mut arena, 32);
    let b2 = sendable(&mut arena, 32);
    assert_eq!(arena.lease_count(), 2);

    b1.release(&mut arena);
    assert_eq!(arena.lease_count(), 1);

    b2.release(&mut arena);
    assert_eq!(arena.lease_count(), 0);
}

#[test]
fn remote_returns_are_counted_apart() {
    let mut arena = writable_arena(1);
    let local = lease(&mut arena, 32);
    let remote = sendable(&mut arena, 32);
    remote.release(&mut arena);
    assert_eq!(arena.remote_returns(), 1);
    local.release(&mut arena);
    assert_eq!(arena.remote_returns(), 1);
    assert!(!arena.has_outstanding_leases());
}
