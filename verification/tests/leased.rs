use turbine::{Arena, ArenaIdx, ArenaState, LeasedBuffer, OsError, SlotId};

fn heap_region(size: usize) -> Result<&'static mut [u8], OsError> {
    Ok(Box::leak(vec![0u8; size].into_boxed_slice()))
}

fn writable_arena() -> Arena {
    let mut arena = Arena::new(heap_region(4096)).unwrap();
    arena.set_state(ArenaState::Writable);
    arena.set_epoch(1);
    arena
}

fn lease(arena: &mut Arena, len: usize) -> LeasedBuffer {
    LeasedBuffer::lease_from(arena, len, SlotId::new(0), ArenaIdx::new(0)).unwrap()
}

#[test]
fn leased_buffer_read_and_copy() {
    let mut arena = writable_arena();
    let mut buf = lease(&mut arena, 64);

    // Write some data into the arena memory.
    buf.as_mut_slice(&mut arena).fill(0xAB);

    assert_eq!(buf.len(), 64);
    assert!(!buf.is_empty());
    assert_eq!(buf.epoch(), 1);
    assert_eq!(buf.buf_id(), 0);
    assert_eq!(buf.as_slice(&arena).len(), 64);
    assert!(buf.as_slice(&arena).iter().all(|&b| b == 0xAB));

    let copied = buf.copy_out(&arena);
    assert_eq!(copied.len(), 64);
    assert!(copied.iter().all(|&b| b == 0xAB));
}

#[test]
fn leased_buffer_write() {
    let mut arena = writable_arena();
    let mut buf = lease(&mut arena, 16);
    buf.as_mut_slice(&mut arena).copy_from_slice(&[1u8; 16]);
    assert!(buf.as_slice(&arena).iter().all(|&b| b == 1));
}

#[test]
fn drop_decrements_lease_count() {
    let mut arena = writable_arena();
    let buf = lease(&mut arena, 32);
    assert_eq!(arena.lease_count(), 1);
    // After the buffer is given back, lease count should be decremented.
    buf.release(&mut arena);
    assert_eq!(arena.lease_count(), 0);
}

#[test]
fn empty_buffer() {
    let mut arena = writable_arena();
    // Zero bytes: the lease is valid but its length is 0.
    let buf = lease(&mut arena, 0);
    assert!(buf.is_empty());
    assert_eq!(buf.len(), 0);
    assert_eq!(buf.as_slice(&arena), &[] as &[u8]);
}

#[test]
fn pin_for_write_borrows_buffer() {
    let mut arena = writable_arena();
    let mut buf = lease(&mut arena, 64);
    {
        let pinned = buf.pin_for_write();
        assert_eq!(pinned.len(), 64);
        assert_eq!(pinned.buf_index(), SlotId::new(0));
    }
    // Buffer is usable again after PinnedWrite is dropped.
    assert_eq!(buf.len(), 64);
}

#[test]
fn into_sendable_keeps_lease_alive() {
    let mut arena = writable_arena();
    let buf = lease(&mut arena, 64);
    assert_eq!(buf.buf_id(), 0);

    // into_sendable consumes the LeasedBuffer without decrementing lease_count.
    let sendable = buf.into_sendable();
    assert_eq!(arena.lease_count(), 1, "lease must stay alive after into_sendable");
    assert_eq!(sendable.epoch(), 1);
    assert_eq!(sendable.arena_idx(), ArenaIdx::new(0));

    sendable.release(&mut arena);
    assert_eq!(arena.lease_count(), 0);
}

#[test]
fn pinned_write_accessors() {
    let mut arena = writable_arena();
    let mut buf = lease(&mut arena, 128);

    let mut pinned = buf.pin_for_write();
    assert_eq!(pinned.len(), 128);
    assert!(!pinned.is_empty());
    assert_eq!(pinned.buf_index(), SlotId::new(0));
    assert!(!pinned.as_slice(&arena).as_ptr().is_null());
    assert!(!pinned.as_mut_slice(&mut arena).as_mut_ptr().is_null());
}

#[test]
fn pinned_write_empty_buffer() {
    let mut arena = writable_arena();
    let mut buf = lease(&mut arena, 0);

    let pinned = buf.pin_for_write();
    assert!(pinned.is_empty());
    assert_eq!(pinned.len(), 0);
}

#[test]
fn lease_names_its_place() {
    let mut arena = writable_arena();
    let first = LeasedBuffer::lease_from(&mut arena, 10, SlotId::new(7), ArenaIdx::new(3)).unwrap();
    let mut second =
        LeasedBuffer::lease_from(&mut arena, 20, SlotId::new(7), ArenaIdx::new(3)).unwrap();
    assert_eq!(first.offset(), 0);
    assert_eq!(second.offset(), 10);
    assert_eq!(second.buf_id(), 1);
    assert_eq!(second.slot_id(), SlotId::new(7));
    assert_eq!(second.arena_idx(), ArenaIdx::new(3));
    assert_eq!(second.pin_for_write().offset(), 10);
    assert_eq!(arena.lease_count(), 2);
    assert!(LeasedBuffer::lease_from(&mut arena, 4067, SlotId::new(7), ArenaIdx::new(3)).is_none());
    assert_eq!(arena.lease_count(), 2);
}

#[test]
fn pinned_bytes_are_the_buffer() {
    let mut arena = writable_arena();
    let _first = lease(&mut arena, 8);
    let mut buf = lease(&mut arena, 4);
    buf.pin_for_write().as_mut_slice(&mut arena).copy_from_slice(&[1, 2, 3, 4]);
    assert_eq!(buf.copy_out(&arena), vec![1, 2, 3, 4]);
    assert_eq!(buf.pin_for_write().as_slice(&arena), &[1, 2, 3, 4]);
    assert_eq!(arena.slice(0, 9), &[0, 0, 0, 0, 0, 0, 0, 0, 1]);
}
