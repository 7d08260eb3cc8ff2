use std::cell::RefCell;
use turbine::{ArenaIdx, BufferPinHook, EpochObserver, IouringBufferPool, NoopHooks, OsError, PoolConfig};

fn heap_region(size: usize) -> Result<&'static mut [u8], OsError> {
    Ok(Box::leak(vec![0u8; size].into_boxed_slice()))
}

#[test]
fn noop_hooks_default() {
    let hooks = NoopHooks::default();
    // Just verify it can be created via Default
    let _ = format!("{hooks:?}");
}

#[test]
fn noop_hooks_clone_copy() {
    let hooks = NoopHooks;
    let cloned = hooks.clone();
    let copied = hooks;
    let _ = (cloned, copied);
}

#[test]
fn noop_buffer_pin_hook() {
    let hooks = NoopHooks;
    // Should not panic: it's a no-op
    hooks.on_pin(0, 0);
    hooks.on_pin(u64::MAX, u32::MAX);
}

#[test]
fn noop_epoch_observer_on_rotate() {
    let hooks = NoopHooks;
    hooks.on_rotate(0, 1);
    hooks.on_rotate(u64::MAX, u64::MAX);
}

#[test]
fn noop_epoch_observer_on_collect() {
    let hooks = NoopHooks;
    hooks.on_collect(0);
    hooks.on_collect(u64::MAX);
}

#[test]
fn noop_epoch_observer_on_arena_alloc() {
    let hooks = NoopHooks;
    hooks.on_arena_alloc(ArenaIdx::new(0));
    hooks.on_arena_alloc(ArenaIdx::new(99));
}

#[test]
fn noop_epoch_observer_on_arena_free() {
    let hooks = NoopHooks;
    hooks.on_arena_free(ArenaIdx::new(0));
    hooks.on_arena_free(ArenaIdx::new(99));
}

#[test]
fn noop_epoch_observer_on_collect_sweep() {
    let hooks = NoopHooks;
    hooks.on_collect_sweep(0);
    hooks.on_collect_sweep(100);
}

/// Test that the default trait impls for EpochObserver work.
struct MinimalObserver;

impl EpochObserver for MinimalObserver {
    fn on_rotate(&self, _retired: u64, _active: u64) {}
    fn on_collect(&self, _epoch: u64) {}
}

#[test]
fn default_trait_impls_are_callable() {
    let obs = MinimalObserver;
    obs.on_arena_alloc(ArenaIdx::new(0));
    obs.on_arena_free(ArenaIdx::new(0));
    obs.on_collect_sweep(42);
}

/// Hooks that write down what they are told.
struct Recorder<'a> {
    log: &'a RefCell<Vec<String>>,
}

impl BufferPinHook for Recorder<'_> {
    fn on_pin(&self, epoch: u64, buf_id: u32) {
        self.log.borrow_mut().push(format!("pin {epoch} {buf_id}"));
    }
}

impl EpochObserver for Recorder<'_> {
    fn on_rotate(&self, retired: u64, active: u64) {
        self.log.borrow_mut().push(format!("rotate {retired} {active}"));
    }

    fn on_collect(&self, epoch: u64) {
        self.log.borrow_mut().push(format!("collect {epoch}"));
    }

    fn on_arena_alloc(&self, arena_idx: ArenaIdx) {
        self.log.borrow_mut().push(format!("alloc {}", arena_idx.as_usize()));
    }

    fn on_arena_free(&self, arena_idx: ArenaIdx) {
        self.log.borrow_mut().push(format!("free {}", arena_idx.as_usize()));
    }

    fn on_collect_sweep(&self, collected: usize) {
        self.log.borrow_mut().push(format!("sweep {collected}"));
    }
}

#[test]
fn hooks_are_told_in_order() {
    let log = RefCell::new(Vec::new());
    let config = PoolConfig {
        arena_size: 4096,
        initial_arenas: 1,
        max_free_arenas: 4,
        max_total_arenas: 0,
        registration_slots: 32,
        page_size: 4096,
    };
    let mut pool = IouringBufferPool::new(config, Recorder { log: &log }, heap_region).unwrap();
    let a = pool.lease(16).unwrap();
    let b = pool.lease(16).unwrap();
    assert!(pool.lease(4096).is_none());
    pool.rotate().unwrap();
    assert!(pool.collect_epoch(0).is_err());
    pool.release(a);
    pool.release(b);
    pool.collect_epoch(0).unwrap();
    assert_eq!(pool.collect(), 1);
    assert_eq!(
        *log.borrow(),
        vec!["pin 0 0", "pin 0 1", "rotate 0 1", "alloc 1", "collect 0", "sweep 1"]
    );
}

#[test]
fn hooks_are_told_of_freed_arenas() {
    let log = RefCell::new(Vec::new());
    let config = PoolConfig {
        arena_size: 4096,
        initial_arenas: 4,
        max_free_arenas: 1,
        max_total_arenas: 0,
        registration_slots: 32,
        page_size: 4096,
    };
    let mut pool = IouringBufferPool::new(config, Recorder { log: &log }, heap_region).unwrap();
    assert_eq!(pool.shrink(), 2);
    assert_eq!(pool.shrink(), 0);
    assert_eq!(*log.borrow(), vec!["free 3", "free 2"]);
}
