use bytes::BytesMut;
use turbine::bench::competitors::bumpalo_pool::BumpaloPool;
use turbine::bench::competitors::bytes_pool::BytesPool;
use turbine::bench::competitors::crossbeam_pool::{lease_from, CrossbeamPool};
use turbine::bench::competitors::sharded::ShardedSlabPool;
use turbine::bench::competitors::slab_mutex::SlabPool;
use turbine::bench::competitors::vec_baseline::VecBaseline;
use turbine::bench::sizing::{arena_size_for, page_align, sizes};
use turbine::bench::spsc::{
    last_pop_step, pop_step, push_step, slot, Offered, Polled, PopStep, PushStep, SpscRing,
};
use turbine::bench::workload::{build_drain_queue, lease_or_refresh};
use turbine::{IouringBufferPool, NoopHooks, OsError, PoolConfig, TurbineError};

fn heap_region(size: usize) -> Result<&'static mut [u8], OsError> {
    Ok(Box::leak(vec![0u8; size].into_boxed_slice()))
}

fn small_pool(max: usize) -> IouringBufferPool<NoopHooks, impl Fn(usize) -> Result<&'static mut [u8], OsError>> {
    let config = PoolConfig {
        arena_size: 4096,
        initial_arenas: 3,
        max_total_arenas: max,
        page_size: 4096,
        ..Default::default()
    };
    IouringBufferPool::new(config, NoopHooks, heap_region).unwrap()
}

#[test]
fn arenas_hold_64_buffers() {
    assert_eq!(sizes(), vec![64, 512, 4096, 65536]);
    assert_eq!(arena_size_for(0), 4096);
    assert_eq!(arena_size_for(1), 4096);
    assert_eq!(arena_size_for(64), 4096);
    assert_eq!(arena_size_for(65), 8192);
    assert_eq!(arena_size_for(65536), 64 * 65536);
    assert_eq!(page_align(0), 0);
    assert_eq!(page_align(4096), 4096);
    assert_eq!(page_align(4097), 8192);
}

#[test]
fn vec_baseline_is_zeroed() {
    let buf = VecBaseline::lease(5);
    assert_eq!(buf, vec![0, 0, 0, 0, 0]);
    VecBaseline::release(buf);
}

#[test]
fn crossbeam_lease_reuses_buffers() {
    assert_eq!(lease_from(None, 3), vec![0, 0, 0]);
    assert_eq!(lease_from(Some(vec![1, 2]), 4), vec![1, 2, 0, 0]);
    assert_eq!(lease_from(Some(vec![1, 2, 3]), 2), vec![1, 2, 3]);
}

#[test]
fn crossbeam_pool_is_a_stack() {
    let mut pool = CrossbeamPool::new(4);
    assert_eq!(pool.lease(2), vec![0, 0]);
    pool.release(vec![1, 1, 1]);
    pool.release(vec![2]);
    assert_eq!(pool.lease(3), vec![2, 0, 0]);
    assert_eq!(pool.lease(3), vec![1, 1, 1]);
    assert_eq!(pool.lease(1), vec![0]);
}

#[test]
fn bytes_pool_hands_out_what_came_back() {
    let mut pool = BytesPool::new(1, 4);
    let mut first = pool.lease();
    assert_eq!(first.as_ref(), &[0, 0, 0, 0]);
    first[0] = 7;
    // The list is empty: this one is new.
    let second = pool.lease();
    assert_eq!(second.as_ref(), &[0, 0, 0, 0]);
    pool.release(second);
    pool.release(first);
    assert_eq!(pool.lease().as_ref(), &[7, 0, 0, 0]);
    pool.release(BytesMut::zeroed(2));
    assert_eq!(pool.lease().len(), 2);
    assert_eq!(pool.lease().len(), 4);
}

#[test]
fn bumpalo_pool_hands_out_zeros() {
    let mut pool = BumpaloPool::new(64);
    for round in 0..3 {
        for len in [0usize, 1, 16, 100] {
            let buf = pool.lease(len);
            assert_eq!(buf.len(), len);
            assert!(buf.iter().all(|&b| b == 0));
            buf.fill(round + 1);
        }
        pool.reset();
    }
}

#[test]
fn slab_pool_reuses_keys() {
    let mut pool = SlabPool::new();
    let a = pool.lease(8);
    let b = pool.lease(8);
    assert_eq!(a, 0);
    assert_ne!(a, b);
    pool.release(a);
    assert_eq!(pool.lease(16), a);
    assert_eq!(pool.lease(16), 2);
    pool.release(a);
    pool.release(b);
    assert_eq!(pool.lease(1), b);
    assert_eq!(pool.lease(1), a);
    assert_eq!(pool.lease(1), 3);
    let mut other = SlabPool::default();
    assert_eq!(other.lease(1), 0);
}

#[test]
fn sharded_slab_pool_shares_keys() {
    let mut pool = ShardedSlabPool::default();
    let mut handle = pool.handle();
    let a = pool.lease(8).unwrap();
    let b = pool.lease(8).unwrap();
    assert_ne!(a, b);
    handle.release(a);
    let c = pool.lease(8).unwrap();
    assert_ne!(b, c);
    pool.release(b);
    pool.release(c);
    // A key that is free already does no harm.
    handle.release(b);
}

#[test]
fn sharded_slab_pool_leases_free_keys() {
    let mut pool = ShardedSlabPool::new();
    let mut keys = Vec::new();
    for len in 0..200 {
        let key = pool.lease(len).unwrap();
        assert!(!keys.contains(&key));
        keys.push(key);
    }
    let freed = keys.remove(100);
    pool.release(freed);
    let again = pool.lease(16).unwrap();
    assert!(!keys.contains(&again));
}

#[test]
fn sharded_slab_pool_ignores_unknown_keys() {
    let mut pool = ShardedSlabPool::new();
    let a = pool.lease(8).unwrap();
    pool.release(a);
    let b = pool.lease(8).unwrap();
    pool.release(b);
    pool.release(b);
    // The key that the slot would get next.
    pool.release(b.wrapping_add(b.wrapping_sub(a)));
    pool.release(usize::MAX);
    let c = pool.lease(8).unwrap();
    let d = pool.lease(8).unwrap();
    assert_ne!(c, d);
    let mut handle = pool.handle();
    handle.release(c.wrapping_add(b.wrapping_sub(a)));
    handle.release(c);
    assert_ne!(pool.lease(8).unwrap(), d);
}

#[test]
fn drain_queue_of_free_arenas() {
    let mut pool = small_pool(3);
    let mut held = Vec::new();
    build_drain_queue(&mut pool, 64, 0, &mut held).unwrap();
    assert!(held.is_empty());
    assert_eq!(pool.epoch(), 0);
    // Two arenas are free.
    build_drain_queue(&mut pool, 4096, 1, &mut held).unwrap();
    assert_eq!((held.len(), pool.epoch()), (1, 1));
    let err = build_drain_queue(&mut pool, 4096, 3, &mut held).unwrap_err();
    assert!(matches!(err, TurbineError::ArenaLimitExceeded { current: 3, max: 3 }));
    assert_eq!(pool.mgr().free_count(), 0);
}

#[test]
fn ring_steps() {
    assert_eq!(slot(0), 0);
    assert_eq!(slot(63), 63);
    assert_eq!(slot(64), 0);
    assert_eq!(slot(usize::MAX), 63);
    assert_eq!(push_step(0, 0, false), PushStep::Write(0));
    assert_eq!(push_step(64, 1, false), PushStep::Write(0));
    assert_eq!(push_step(64, 0, false), PushStep::Wait);
    assert_eq!(push_step(64, 0, true), PushStep::Refused);
    assert_eq!(push_step(3, usize::MAX, true), PushStep::Write(3));
    assert_eq!(pop_step(5, 6, true), PopStep::Take(5));
    assert_eq!(pop_step(6, 6, false), PopStep::Wait);
    assert_eq!(pop_step(6, 6, true), PopStep::LookAgain);
    assert_eq!(last_pop_step(70, 71), Some(6));
    assert_eq!(last_pop_step(71, 71), None);
}

#[test]
fn ring_keeps_its_order() {
    let mut ring = SpscRing::new();
    let mut next_in = 0;
    let mut next_out = 0;
    for round in 0..10 {
        while let Offered::Accepted = ring.push(next_in) {
            next_in += 1;
        }
        assert!(matches!(ring.push(999), Offered::Full(999)));
        assert_eq!(next_in - next_out, 64);
        for _ in 0..(round * 7) {
            if let Polled::Item(item) = ring.pop() {
                assert_eq!(item, next_out);
                next_out += 1;
            }
        }
    }
    ring.close();
    while let Offered::Accepted = ring.push(next_in) {
        next_in += 1;
    }
    assert!(matches!(ring.push(999), Offered::Refused(999)));
    while let Polled::Item(item) = ring.pop() {
        assert_eq!(item, next_out);
        next_out += 1;
    }
    assert_eq!(next_in, next_out);
    assert!(matches!(ring.pop(), Polled::Finished));
    let mut empty = SpscRing::<u8>::new();
    assert!(matches!(empty.pop(), Polled::Empty));
}

#[test]
fn refresh_collects_after_rotation() {
    let mut pool = small_pool(0);
    let full = pool.lease(4096).unwrap();
    pool.release(full);
    let buf = lease_or_refresh(&mut pool, 64).unwrap();
    assert_eq!(buf.epoch(), 1);
    assert_eq!(pool.draining_count(), 0);
    assert_eq!(lease_or_refresh(&mut pool, 64).unwrap().epoch(), 1);
    let err = lease_or_refresh(&mut pool, 5000).err().unwrap();
    assert!(matches!(err, TurbineError::ArenaFull { requested: 5000, available: 4096 }));
}

#[test]
fn drain_queue_is_built() {
    let mut pool = small_pool(60);
    let mut held = Vec::new();
    build_drain_queue(&mut pool, 64, 50, &mut held).unwrap();
    assert_eq!(held.len(), 50);
    assert_eq!(pool.draining_count(), 50);
    assert_eq!(pool.epoch(), 50);
    for (i, buf) in held.iter().enumerate() {
        assert_eq!(buf.epoch(), i as u64);
        assert_eq!(buf.len(), 64);
    }
    for buf in held {
        pool.release(buf);
    }
    assert_eq!(pool.collect(), 50);
}

#[test]
fn drain_queue_is_left_unswept() {
    let mut pool = small_pool(0);
    // Two idle arenas wait in the queue. The third is full, so the first lease
    // of the queue rotates and sweeps them.
    pool.rotate().unwrap();
    pool.rotate().unwrap();
    let full = pool.lease(4096).unwrap();
    let mut held = Vec::new();
    build_drain_queue(&mut pool, 64, 2, &mut held).unwrap();
    assert_eq!(pool.epoch(), 5);
    assert_eq!((held[0].epoch(), held[1].epoch()), (3, 4));
    // The full arena and the two of the queue.
    assert_eq!(pool.draining_count(), 3);
    for buf in held {
        pool.release(buf);
    }
    // Nothing sweeps the queue until it is asked for.
    assert_eq!(pool.draining_count(), 3);
    pool.release(full);
    assert_eq!(pool.collect(), 3);
    // A queue of no depth asks for nothing.
    let mut none = Vec::new();
    build_drain_queue(&mut pool, 5000, 0, &mut none).unwrap();
    assert_eq!((pool.epoch(), none.len()), (5, 0));
    // No arena is large enough: one rotation, and it stops.
    let err = build_drain_queue(&mut pool, 5000, 3, &mut none).unwrap_err();
    assert!(matches!(err, TurbineError::ArenaFull { requested: 5000, available: 4096 }));
    assert_eq!((pool.epoch(), none.len()), (6, 0));
}

#[test]
fn drain_queue_stops_at_the_limit() {
    let mut pool = small_pool(4);
    let mut held = Vec::new();
    let err = build_drain_queue(&mut pool, 64, 50, &mut held).unwrap_err();
    assert!(matches!(err, TurbineError::ArenaLimitExceeded { current: 4, max: 4 }));
    assert_eq!(held.len(), 4);
    assert_eq!(pool.draining_count(), 3);
}
