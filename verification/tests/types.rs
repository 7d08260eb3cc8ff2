use std::collections::HashSet;
use turbine::{ArenaIdx, SlotId};

#[test]
fn arena_idx_new_and_as_usize() {
    let idx = ArenaIdx::new(42);
    assert_eq!(idx.as_usize(), 42);
}

#[test]
fn arena_idx_display() {
    let idx = ArenaIdx::new(7);
    assert_eq!(idx.to_string(), "7");
}

#[test]
fn arena_idx_debug() {
    let idx = ArenaIdx::new(3);
    assert_eq!(format!("{idx:?}"), "ArenaIdx(3)");
}

#[test]
fn arena_idx_clone_copy() {
    let idx = ArenaIdx::new(5);
    let cloned = idx.clone();
    let copied = idx;
    assert_eq!(idx, cloned);
    assert_eq!(idx, copied);
}

#[test]
fn arena_idx_eq_and_hash() {
    let a = ArenaIdx::new(1);
    let b = ArenaIdx::new(1);
    let c = ArenaIdx::new(2);
    assert_eq!(a, b);
    assert_ne!(a, c);

    let mut set = HashSet::new();
    set.insert(a);
    assert!(set.contains(&b));
    assert!(!set.contains(&c));
}

#[test]
fn slot_id_new_and_as_u16() {
    let id = SlotId::new(100);
    assert_eq!(id.as_u16(), 100);
}

#[test]
fn slot_id_display() {
    let id = SlotId::new(15);
    assert_eq!(id.to_string(), "15");
}

#[test]
fn slot_id_debug() {
    let id = SlotId::new(9);
    assert_eq!(format!("{id:?}"), "SlotId(9)");
}

#[test]
fn slot_id_clone_copy() {
    let id = SlotId::new(8);
    let cloned = id.clone();
    let copied = id;
    assert_eq!(id, cloned);
    assert_eq!(id, copied);
}

#[test]
fn slot_id_eq_and_hash() {
    let a = SlotId::new(10);
    let b = SlotId::new(10);
    let c = SlotId::new(20);
    assert_eq!(a, b);
    assert_ne!(a, c);

    let mut set = HashSet::new();
    set.insert(a);
    assert!(set.contains(&b));
    assert!(!set.contains(&c));
}

#[test]
fn arena_idx_zero() {
    let idx = ArenaIdx::new(0);
    assert_eq!(idx.as_usize(), 0);
    assert_eq!(idx.to_string(), "0");
}

#[test]
fn slot_id_zero() {
    let id = SlotId::new(0);
    assert_eq!(id.as_u16(), 0);
    assert_eq!(id.to_string(), "0");
}

#[test]
fn slot_id_max() {
    let id = SlotId::new(u16::MAX);
    assert_eq!(id.as_u16(), u16::MAX);
}

#[test]
fn largest_indices_display() {
    assert_eq!(ArenaIdx::new(usize::MAX).to_string(), format!("{}", usize::MAX));
    assert_eq!(SlotId::new(u16::MAX).to_string(), "65535");
    assert_eq!(ArenaIdx::new(1000).to_string(), "1000");
}
