# Turbine

Epoch-based buffer rotation for io_uring, verified with Verus.

Buffers are leased from arenas: one arena takes allocations per epoch, a bump
allocator hands out its bytes, and a count of leases says when it can be reused.
Rotation retires the current arena and moves on to a free one, a swept one or a
new one, without waiting for leases. An arena is only recycled or unmapped when
all of its leases are back, on whichever thread they ended.

## Layout

- `src/epoch` -- the arena, the manager with its drain queue and free pool, and a
  fixed ring of arenas (`clock`). `model` is the mathematics behind the manager.
- `src/buffer` -- leased and pinned buffers and the pool. `ledger` is the model of
  the pool: its arenas, its registration and an account of every lease.
- `src/transfer` -- buffers that leave the owning thread.
- `src/ring` -- registration slots and which arena holds which.
- `src/gc` -- hooks for garbage collectors and metrics.
- `src/laws` -- what holds of the pool across its operations.
- `src/histories` -- what holds after any sequence of calls.
- `src/bench` -- workloads and other allocators to hold the pool against.
- `app` -- mapped memory, the ring, other threads and flamegraphs.

## Using the pool

The library does not map memory itself. A pool is made with a source, a function
from a size to a region of that many bytes, and collects what it wants done with
memory that it no longer needs: `take_advice` and `take_unmapped` hand that out.
If `new` fails half way, the memory mapped so far comes with the error; `close`
ends a pool and hands out all memory that is left. Buffers are given back by
`release`; in `app` they do that themselves when they are dropped.
What the ring says to a registration is passed in.

```rust
let mut pool = IouringBufferPool::new(PoolConfig::default(), NoopHooks, source).unwrap();
let mut buf = pool.lease_or_rotate(4096)?;
pool.contents_mut(&mut buf)[..5].copy_from_slice(b"hello");
pool.rotate()?;
pool.release(buf);
pool.collect_epoch(0)?;
```
