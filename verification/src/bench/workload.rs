//! What the measured loops do with a pool.
use vstd::prelude::*;

use crate::buffer::leased::{Lease, LeasedBuffer};
use crate::buffer::ledger::PoolView;
use crate::buffer::pool::IouringBufferPool;
use crate::epoch::arena::Region;
use crate::error::{OsError, TurbineError};
use crate::gc::{BufferPinHook, EpochObserver};

verus! {

/// What a lease that does not fit the current arena does, and what it answers,
/// when it sweeps the drain queue after the rotation.
pub open spec fn refreshes<F>(
    before: PoolView,
    after: PoolView,
    source: F,
    len: usize,
    r: Result<LeasedBuffer, TurbineError>,
) -> bool where F: Fn(usize) -> Result<&'static mut [u8], OsError> {
    match r {
        Ok(buf) => len <= before.manager.arena_size && exists|mid: PoolView| #[trigger]
            crate::buffer::pool::pool_rotates(before, mid, source, Ok::<(), TurbineError>(()))
                && crate::buffer::pool::is_next(mid.collected(), len, buf) && after
                == mid.collected().leased(len as nat),
        Err(TurbineError::ArenaFull { requested, available }) => {
            &&& requested == len
            &&& available == before.manager.arena_size
            &&& len > before.manager.arena_size
            &&& exists|mid: PoolView| #[trigger]
                crate::buffer::pool::pool_rotates(before, mid, source, Ok::<(), TurbineError>(()))
                    && after == mid.collected()
        },
        Err(e) => crate::buffer::pool::pool_rotates(
            before,
            after,
            source,
            Err::<(), TurbineError>(e),
        ),
    }
}

/// What a lease does, and what it answers, when it rotates and sweeps the drain
/// queue if the current arena is full.
pub open spec fn leases_or_refreshes<F>(
    before: PoolView,
    after: PoolView,
    source: F,
    len: usize,
    r: Result<LeasedBuffer, TurbineError>,
) -> bool where F: Fn(usize) -> Result<&'static mut [u8], OsError> {
    if len <= before.manager.current().available() {
        &&& r matches Ok(buf)
        &&& crate::buffer::pool::is_next(before, len, buf)
        &&& after == before.leased(len as nat)
    } else {
        refreshes(before, after, source, len, r)
    }
}

/// Lease `len` bytes. If the current arena is full, rotate, sweep the drain
/// queue and lease from the fresh arena.
pub fn lease_or_refresh<
    H: BufferPinHook + EpochObserver,
    F: Fn(usize) -> Result<&'static mut [u8], OsError>,
>(pool: &mut IouringBufferPool<H, F>, len: usize) -> (r: Result<LeasedBuffer, TurbineError>)
    requires
        old(pool).wf(),
        if len <= old(pool)@.manager.current().available() {
            old(pool)@.manager.current().acquired < usize::MAX
        } else {
            old(pool)@.can_turn()
        },
    ensures
        final(pool).wf(),
        final(pool).source() == old(pool).source(),
        final(pool).hooks() == old(pool).hooks(),
        leases_or_refreshes(old(pool)@, final(pool)@, old(pool).source(), len, r),
        forall|l: Lease| #[trigger]
            old(pool)@.leases.contains(l) ==> old(pool)@.keeps(final(pool)@, l),
{
    let ghost v = pool@;
    match pool.lease(len) {
        Some(buf) => {
            proof {
                assert forall|l: Lease| #[trigger] v.leases.contains(l) implies v.keeps(
                    pool@,
                    l,
                ) by {
                    v.leases_survive_leasing(len as nat, l);
                }
            }
            return Ok(buf);
        },
        None => {},
    }
    match pool.rotate() {
        Ok(_) => {},
        Err(e) => {
            proof {
                assert forall|l: Lease| #[trigger] v.leases.contains(l) implies v.keeps(
                    pool@,
                    l,
                ) by {
                    v.leases_survive_rotating(
                        pool@,
                        old(pool).source(),
                        Err::<(), TurbineError>(e),
                        l,
                    );
                }
            }
            return Err(e);
        },
    }
    let ghost mid = pool@;
    proof {
        assert(crate::buffer::pool::pool_rotates(
            v,
            mid,
            old(pool).source(),
            Ok::<(), TurbineError>(()),
        ));
        v.rotation_starts_fresh(mid, old(pool).source());
        mid.manager.collected_is_sound();
    }
    pool.collect();
    let ghost swept = pool@;
    proof {
        assert(swept == mid.collected());
        assert forall|l: Lease| #[trigger] v.leases.contains(l) implies v.keeps(swept, l) by {
            v.leases_survive_rotating(mid, old(pool).source(), Ok::<(), TurbineError>(()), l);
            mid.leases_survive_collecting(l);
        }
    }
    match pool.lease(len) {
        Some(buf) => {
            proof {
                assert forall|l: Lease| #[trigger] v.leases.contains(l) implies v.keeps(
                    pool@,
                    l,
                ) by {
                    assert(v.keeps(swept, l));
                    swept.leases_survive_leasing(len as nat, l);
                }
            }
            Ok(buf)
        },
        None => {
            let available: usize = pool.available();
            Err(TurbineError::ArenaFull { requested: len, available })
        },
    }
}

/// `held` are leases of `len` bytes each that are out, taken one after the
/// other in different epochs, none of them from before `since` leases were
/// handed out.
pub open spec fn holds_queue(pool: PoolView, held: Seq<LeasedBuffer>, len: usize, since: nat) -> bool {
    &&& forall|k: int|
        0 <= k < held.len() ==> pool.leases.contains((#[trigger] held[k]).lease())
            && held[k].lease().len == len && held[k].lease().number >= since
    &&& forall|j: int, k: int|
        0 <= j < k < held.len() ==> (#[trigger] held[j]).lease().epoch < (
        #[trigger] held[k]).lease().epoch
}

/// `e` is what a request for `len` bytes ends in, when it leaves the pool as
/// `after`: no arena is large enough, there is no arena to rotate to and none may
/// be mapped, or mapping one has failed.
pub open spec fn fails_as<F>(after: PoolView, source: F, len: usize, e: TurbineError) -> bool where
    F: Fn(usize) -> Result<&'static mut [u8], OsError>,
 {
    match e {
        TurbineError::ArenaFull { requested, available } => {
            &&& requested == len
            &&& available == after.manager.arena_size
            &&& len > available
        },
        TurbineError::ArenaLimitExceeded { current, max } => {
            &&& after.manager.free.len() == 0
            &&& after.manager.swept().len() == 0
            &&& after.manager.at_limit()
            &&& current == after.manager.live_count()
            &&& max == after.manager.max_arenas
        },
        TurbineError::Mmap(os) => {
            &&& after.manager.free.len() == 0
            &&& after.manager.swept().len() == 0
            &&& !after.manager.at_limit()
            &&& call_ensures(source, (after.manager.arena_size,), Err(os))
        },
        _ => false,
    }
}

/// The pool after one more arena is left with a lease of `len` bytes, `buf`: a
/// lease and a rotation.
pub open spec fn queue_step<F>(
    before: PoolView,
    after: PoolView,
    source: F,
    len: usize,
    buf: LeasedBuffer,
) -> bool where F: Fn(usize) -> Result<&'static mut [u8], OsError> {
    exists|mid: PoolView| #[trigger]
        leases_or_refreshes(before, mid, source, len, Ok(buf)) && crate::buffer::pool::pool_rotates(
            mid,
            after,
            source,
            Ok::<(), TurbineError>(()),
        )
}

/// The pool after arenas are left with the leases `bufs`, one after the other.
pub open spec fn built<F>(
    before: PoolView,
    after: PoolView,
    source: F,
    len: usize,
    bufs: Seq<LeasedBuffer>,
) -> bool where F: Fn(usize) -> Result<&'static mut [u8], OsError>
    decreases bufs.len(),
{
    if bufs.len() == 0 {
        after == before
    } else {
        exists|mid: PoolView|
            built(before, mid, source, len, bufs.drop_last()) && #[trigger] queue_step(
                mid,
                after,
                source,
                len,
                bufs.last(),
            )
    }
}

/// The pool after the leases `bufs` were taken and `e` stopped the queue there:
/// the next lease fails, or the rotation after the last one does.
pub open spec fn breaks_off<F>(
    before: PoolView,
    after: PoolView,
    source: F,
    len: usize,
    bufs: Seq<LeasedBuffer>,
    e: TurbineError,
) -> bool where F: Fn(usize) -> Result<&'static mut [u8], OsError> {
    ||| exists|mid: PoolView| #[trigger]
        built(before, mid, source, len, bufs) && leases_or_refreshes(
            mid,
            after,
            source,
            len,
            Err(e),
        )
    ||| bufs.len() > 0 && exists|mid: PoolView, leased: PoolView|
        #[trigger] built(before, mid, source, len, bufs.drop_last()) && #[trigger]
            leases_or_refreshes(mid, leased, source, len, Ok(bufs.last()))
            && crate::buffer::pool::pool_rotates(
            leased,
            after,
            source,
            Err::<(), TurbineError>(e),
        )
}

/// The most rotations that a queue of `depth` leases of `len` bytes can take. Only
/// the first lease can need a rotation of its own.
pub open spec fn turns(pool: PoolView, len: usize, depth: int) -> int {
    if depth == 0 {
        0
    } else if len > pool.manager.arena_size {
        1
    } else if len <= pool.manager.current().available() {
        depth
    } else {
        depth + 1
    }
}

/// The pool's counters have room for so many rotations. The registration changes
/// no more often than there are slots left.
pub open spec fn room_for(pool: PoolView, turns: int) -> bool {
    &&& pool.manager.epoch + turns <= u64::MAX
    &&& pool.reg.generation + turns <= u64::MAX || pool.reg.generation + pool.reg.slots.room()
        <= u64::MAX
}

/// Build a large drain queue by rotating many times with held leases.
///
/// Each of `queue_depth` arenas is left with one lease of `buf_size` bytes,
/// which keeps it in the drain queue. The leases are added to `held`. If the
/// pool runs out of arenas, or no arena is large enough, the leases taken so far
/// are in `held`.
pub fn build_drain_queue<
    H: BufferPinHook + EpochObserver,
    F: Fn(usize) -> Result<&'static mut [u8], OsError>,
>(
    pool: &mut IouringBufferPool<H, F>,
    buf_size: usize,
    queue_depth: usize,
    held: &mut Vec<LeasedBuffer>,
) -> (r: Result<(), TurbineError>)
    requires
        old(pool).wf(),
        queue_depth > 0 && buf_size <= old(pool)@.manager.current().available()
            ==> old(pool)@.manager.current().acquired < usize::MAX,
        room_for(old(pool)@, turns(old(pool)@, buf_size, queue_depth as int)),
    ensures
        final(pool).wf(),
        final(pool).source() == old(pool).source(),
        final(pool).hooks() == old(pool).hooks(),
        old(held)@.len() <= final(held)@.len() <= old(held)@.len() + queue_depth,
        final(held)@.take(old(held)@.len() as int) == old(held)@,
        holds_queue(
            final(pool)@,
            final(held)@.skip(old(held)@.len() as int),
            buf_size,
            old(pool)@.issued,
        ),
        r is Ok ==> {
            &&& final(held)@.len() == old(held)@.len() + queue_depth
            &&& forall|k: int|
                old(held)@.len() <= k < final(held)@.len()
                    ==> final(pool)@.manager.draining.contains(
                    (#[trigger] final(held)@[k]).lease().arena,
                )
        },
        match r {
            Ok(_) => built(
                old(pool)@,
                final(pool)@,
                old(pool).source(),
                buf_size,
                final(held)@.skip(old(held)@.len() as int),
            ),
            Err(e) => breaks_off(
                old(pool)@,
                final(pool)@,
                old(pool).source(),
                buf_size,
                final(held)@.skip(old(held)@.len() as int),
                e,
            ),
        },
        queue_depth == 0 ==> r is Ok && final(pool)@ == old(pool)@,
        r is Ok && queue_depth > 0 ==> {
            let first = old(pool)@.manager.epoch + if buf_size
                <= old(pool)@.manager.current().available() {
                0int
            } else {
                1int
            };
            &&& final(pool)@.manager.epoch == first + queue_depth
            &&& final(pool)@.issued == old(pool)@.issued + queue_depth
            &&& forall|k: int|
                old(held)@.len() <= k < final(held)@.len() ==> (
                #[trigger] final(held)@[k]).lease().epoch == first + (k - old(held)@.len())
        },
        buf_size <= old(pool)@.manager.arena_size && old(pool)@.manager.free.len() > queue_depth
            ==> r is Ok,
        r matches Err(e) ==> fails_as(final(pool)@, old(pool).source(), buf_size, e),
        final(pool)@.manager.arena_size == old(pool)@.manager.arena_size,
        final(pool)@.manager.max_arenas == old(pool)@.manager.max_arenas,
        buf_size > old(pool)@.manager.arena_size && queue_depth > 0 ==> r is Err,
        forall|l: Lease| #[trigger]
            old(pool)@.leases.contains(l) ==> old(pool)@.keeps(final(pool)@, l),
{
    let ghost v = pool@;
    let ghost first = held@.len() as int;
    let ghost source = pool.source();
    let ghost start = v.manager.epoch + if buf_size <= v.manager.current().available() {
        0int
    } else {
        1int
    };
    let mut i: usize = 0;
    proof {
        assert(held@.skip(first).len() == 0);
        assert(built(v, pool@, source, buf_size, held@.skip(first)));
    }
    while i < queue_depth
        invariant
            v == old(pool)@,
            first == old(held)@.len(),
            source == old(pool).source(),
            pool.wf(),
            pool.source() == source,
            i <= queue_depth,
            held@.len() == first + i,
            held@.take(first) == old(held)@,
            holds_queue(pool@, held@.skip(first), buf_size, v.issued),
            forall|k: int|
                first <= k < held@.len() ==> (#[trigger] held@[k]).lease().epoch
                    < pool@.manager.epoch,
            pool@.manager.arena_size == v.manager.arena_size,
            pool@.manager.max_arenas == v.manager.max_arenas,
            pool.hooks() == old(pool).hooks(),
            i == 0 ==> pool@ == v,
            start == v.manager.epoch + if buf_size <= v.manager.current().available() {
                0int
            } else {
                1int
            },
            i > 0 ==> pool@.manager.epoch == start + i,
            pool@.issued == v.issued + i,
            forall|k: int|
                first <= k < held@.len() ==> (#[trigger] held@[k]).lease().epoch == start + (k
                    - first),
            i > 0 ==> pool@.manager.current().available() == v.manager.arena_size,
            i > 0 && v.manager.free.len() > queue_depth ==> pool@.manager.free.len() + i + 1
                >= v.manager.free.len(),
            buf_size <= v.manager.current().available() && queue_depth > 0
                ==> v.manager.current().acquired < usize::MAX,
            i > 0 ==> pool@.manager.current().acquired == 0,
            pool@.issued >= v.issued,
            i > 0 ==> buf_size <= v.manager.arena_size,
            room_for(v, turns(v, buf_size, queue_depth as int)),
            i > 0 ==> room_for(pool@, queue_depth - i),
            built(v, pool@, source, buf_size, held@.skip(first)),
            forall|l: Lease| #[trigger] v.leases.contains(l) ==> v.keeps(pool@, l),
        decreases queue_depth - i,
    {
        let ghost before = pool@;
        let ghost old_held = held@;
        let ghost left = if i == 0 {
            turns(v, buf_size, queue_depth as int)
        } else {
            queue_depth - i
        };
        proof {
            assert(before.manager.live(before.manager.write));
            room_lets_turn(before, left);
        }
        let buf = match lease_or_refresh(pool, buf_size) {
            Ok(buf) => buf,
            Err(e) => {
                proof {
                    queue_carries_over(before, pool@, held@.skip(first), buf_size, v.issued);
                    refresh_fails_as(before, pool@, source, buf_size, e);
                    assert forall|l: Lease| #[trigger] v.leases.contains(l) implies v.keeps(
                        pool@,
                        l,
                    ) by {
                        assert(v.keeps(before, l));
                        assert(before.leases.contains(l));
                    }
                }
                return Err(e);
            },
        };
        let ghost leased = pool@;
        let ghost l = buf.lease();
        proof {
            refresh_gives(before, leased, source, buf_size, buf, left);
            room_lets_turn(leased, queue_depth - i);
            queue_carries_over(before, leased, held@.skip(first), buf_size, v.issued);
        }
        held.push(buf);
        proof {
            queue_grows(leased, old_held.skip(first), buf, buf_size, v.issued);
            assert(held@.skip(first) =~= old_held.skip(first).push(buf));
            assert(held@.take(first) =~= old(held)@);
            assert(held@.skip(first).drop_last() =~= old_held.skip(first));
            assert(held@.skip(first).last() == buf);
            assert(built(v, before, source, buf_size, held@.skip(first).drop_last()));
            assert(leases_or_refreshes(before, leased, source, buf_size, Ok(buf)));
        }
        let turned = pool.rotate();
        let ghost after = pool@;
        proof {
            let done: Result<(), TurbineError> = turned;
            assert forall|m: Lease| #[trigger] leased.leases.contains(m) implies leased.keeps(
                after,
                m,
            ) by {
                leased.leases_survive_rotating(after, source, done, m);
            }
            assert forall|m: Lease| #[trigger] v.leases.contains(m) implies v.keeps(after, m) by {
                assert(v.keeps(before, m));
                assert(before.leases.contains(m));
                assert(before.keeps(leased, m));
                assert(leased.leases.contains(m));
            }
            queue_carries_over(leased, after, held@.skip(first), buf_size, v.issued);
        }
        match turned {
            Ok(_) => {
                proof {
                    leased.rotation_starts_fresh(after, source);
                    rotation_counts(leased, after, source, queue_depth - i);
                    built_extends(v, before, after, source, buf_size, old_held.skip(first), buf);
                }
            },
            Err(e) => {
                return Err(e);
            },
        }
        i = i + 1;
    }
    proof {
        assert forall|k: int| first <= k < held@.len() implies pool@.manager.draining.contains(
            (#[trigger] held@[k]).lease().arena,
        ) by {
            assert(held@.skip(first)[k - first] == held@[k]);
            pool@.past_leases_drain(held@[k].lease());
        }
    }
    Ok(())
}

/// A step more makes the queue longer by its lease.
proof fn built_extends<F: Fn(usize) -> Result<&'static mut [u8], OsError>>(
    before: PoolView,
    mid: PoolView,
    after: PoolView,
    source: F,
    len: usize,
    bufs: Seq<LeasedBuffer>,
    buf: LeasedBuffer,
)
    requires
        built(before, mid, source, len, bufs),
        queue_step(mid, after, source, len, buf),
    ensures
        built(before, after, source, len, bufs.push(buf)),
{
    assert(bufs.push(buf).drop_last() =~= bufs);
    assert(queue_step(mid, after, source, len, bufs.push(buf).last()));
}

/// Leases that survive an operation make up the same queue afterwards.
proof fn queue_carries_over(
    before: PoolView,
    after: PoolView,
    held: Seq<LeasedBuffer>,
    len: usize,
    since: nat,
)
    requires
        holds_queue(before, held, len, since),
        forall|l: Lease| #[trigger] before.leases.contains(l) ==> before.keeps(after, l),
    ensures
        holds_queue(after, held, len, since),
{
    assert forall|k: int| 0 <= k < held.len() implies after.leases.contains(
        (#[trigger] held[k]).lease(),
    ) && held[k].lease().len == len && held[k].lease().number >= since by {
        assert(before.leases.contains(held[k].lease()));
    }
}

/// A lease of a later epoch goes to the end of the queue.
proof fn queue_grows(
    pool: PoolView,
    held: Seq<LeasedBuffer>,
    buf: LeasedBuffer,
    len: usize,
    since: nat,
)
    requires
        holds_queue(pool, held, len, since),
        pool.leases.contains(buf.lease()),
        buf.lease().len == len,
        buf.lease().number >= since,
        forall|k: int|
            0 <= k < held.len() ==> (#[trigger] held[k]).lease().epoch < buf.lease().epoch,
    ensures
        holds_queue(pool, held.push(buf), len, since),
{
}

/// What a lease that succeeds leaves behind, with or without a rotation.
proof fn refresh_gives<F: Fn(usize) -> Result<&'static mut [u8], OsError>>(
    before: PoolView,
    after: PoolView,
    source: F,
    len: usize,
    buf: LeasedBuffer,
    turns: int,
)
    requires
        before.wf(),
        after.wf(),
        room_for(before, turns),
        turns > 0,
        leases_or_refreshes(before, after, source, len, Ok(buf)),
    ensures
        after.leases.contains(buf.lease()),
        buf.lease().len == len,
        before.issued <= buf.lease().number < after.issued,
        after.issued == before.issued + 1,
        before.manager.epoch <= buf.lease().epoch == after.manager.epoch,
        after.manager.epoch == before.manager.epoch + if len
            <= before.manager.current().available() {
            0int
        } else {
            1int
        },
        room_for(
            after,
            if len <= before.manager.current().available() {
                turns
            } else {
                turns - 1
            },
        ),
        after.manager.arena_size == before.manager.arena_size,
        after.manager.max_arenas == before.manager.max_arenas,
        len <= before.manager.arena_size,
        len <= before.manager.current().available() ==> after.manager.free == before.manager.free,
        before.manager.free.len() > 0 ==> after.manager.free.len() >= before.manager.free.len() - 1,
{
    assert(before.manager.live(before.manager.write));
    if len > before.manager.current().available() {
        let mid = choose|mid: PoolView| #[trigger]
            crate::buffer::pool::pool_rotates(before, mid, source, Ok::<(), TurbineError>(()))
                && crate::buffer::pool::is_next(mid.collected(), len, buf) && after
                == mid.collected().leased(len as nat);
        rotation_counts(before, mid, source, turns);
        assert(after.leases.contains(buf.lease()));
        assert(after.valid(buf.lease()));
    }
}

/// With room for rotations there is room for the next one.
proof fn room_lets_turn(pool: PoolView, turns: int)
    requires
        pool.wf(),
        room_for(pool, turns),
        turns > 0,
    ensures
        pool.can_turn(),
{
    pool.reg.slots.room_counts();
}

/// A rotation counts one epoch on, and at most one change of the registration.
proof fn rotation_counts<F: Fn(usize) -> Result<&'static mut [u8], OsError>>(
    before: PoolView,
    after: PoolView,
    source: F,
    turns: int,
)
    requires
        before.wf(),
        room_for(before, turns),
        turns > 0,
        crate::buffer::pool::pool_rotates(before, after, source, Ok::<(), TurbineError>(())),
    ensures
        after.manager.epoch == before.manager.epoch + 1,
        room_for(after, turns - 1),
        after.issued == before.issued,
        after.manager.arena_size == before.manager.arena_size,
        after.manager.max_arenas == before.manager.max_arenas,
        before.manager.free.len() > 0 ==> after.manager.free.len() == before.manager.free.len() - 1,
{
    before.reg.slots.room_counts();
    if before.must_grow() && !before.reg.slots.full() {
        before.reg.slots.lowest_is_free(0);
        let slots = before.reg.slots;
        assert(slots.taken.insert(slots.lowest()).len() == slots.taken.len() + 1);
    }
}

/// The errors that a lease can end in.
proof fn refresh_fails_as<F: Fn(usize) -> Result<&'static mut [u8], OsError>>(
    before: PoolView,
    after: PoolView,
    source: F,
    len: usize,
    e: TurbineError,
)
    requires
        refreshes(before, after, source, len, Err(e)),
    ensures
        fails_as(after, source, len, e),
        after.manager.arena_size == before.manager.arena_size,
        after.manager.max_arenas == before.manager.max_arenas,
        len <= before.manager.arena_size ==> before.manager.free.len() == 0,
{
    if e is ArenaFull {
        let mid = choose|mid: PoolView| #[trigger]
            crate::buffer::pool::pool_rotates(before, mid, source, Ok::<(), TurbineError>(()))
                && after == mid.collected();
        assert(mid.manager.arena_size == before.manager.arena_size);
    }
}

/// A lease that fits is an ordinary one. One that does not is a rotation, a sweep
/// and an ordinary lease, one after the other: the sweep leaves nothing in the
/// drain queue that could be freed. It fails if the rotation does, or if the bytes
/// do not fit the fresh arena either.
pub proof fn refreshing_is_rotating_and_collecting<
    F: Fn(usize) -> Result<&'static mut [u8], OsError>,
>(
    before: PoolView,
    after: PoolView,
    source: F,
    len: usize,
    r: Result<LeasedBuffer, TurbineError>,
)
    requires
        before.wf(),
        before.manager.epoch < u64::MAX,
        before.manager.slab.len() < usize::MAX,
        leases_or_refreshes(before, after, source, len, r),
    ensures
        ({
            let arena = before.manager.slab[before.manager.write]->0;
            let fits = arena.used + len <= arena.bytes.len();
            &&& fits ==> r is Ok && crate::buffer::pool::pool_leases(
                before,
                after,
                len,
                Some(r->Ok_0),
            )
            &&& !fits && r is Ok ==> exists|mid: PoolView| #[trigger]
                crate::buffer::pool::pool_rotates(before, mid, source, Ok::<(), TurbineError>(()))
                    && crate::buffer::pool::pool_leases(
                    mid.collected(),
                    after,
                    len,
                    Some(r->Ok_0),
                )
            &&& r matches Err(TurbineError::ArenaFull { requested, available }) ==> {
                &&& !fits
                &&& requested == len
                &&& available == before.manager.arena_size
                &&& len > before.manager.arena_size
                &&& exists|mid: PoolView| #[trigger]
                    crate::buffer::pool::pool_rotates(
                        before,
                        mid,
                        source,
                        Ok::<(), TurbineError>(()),
                    ) && after == mid.collected()
            }
            &&& r matches Err(e) ==> !(e is ArenaFull) ==> !fits && after == before
                && crate::buffer::pool::pool_rotates(
                before,
                after,
                source,
                Err::<(), TurbineError>(e),
            )
        }),
{
    let v = before.manager;
    assert(v.live(v.write));
    assert(v.current().wf());
    if v.current().available() < len && r is Ok {
        let buf = r->Ok_0;
        let mid = choose|mid: PoolView| #[trigger]
            crate::buffer::pool::pool_rotates(before, mid, source, Ok::<(), TurbineError>(()))
                && crate::buffer::pool::is_next(mid.collected(), len, buf) && after
                == mid.collected().leased(len as nat);
        if v.ready().free.len() > 0 {
            let ready = v.ready();
            v.collected_is_sound();
            before.ready_is_sound();
            ready.reusing_moves_on();
            assert(ready.live(ready.free[ready.free.len() - 1]));
            assert(ready.arena(ready.free[ready.free.len() - 1]).wf());
            before.reused_is_sound();
        } else {
            let region = choose|region: Region|
                crate::epoch::manager::is_mapped(source, v.arena_size, region.bytes)
                    && region.bytes.len() == v.arena_size && mid == #[trigger] before.extended(
                    region,
                );
            v.growing_moves_on(region);
            before.extended_is_sound(region);
        }
        mid.manager.collected_is_sound();
        assert(crate::buffer::pool::pool_leases(mid.collected(), after, len, Some(buf)));
    }
}

/// Leaving one more arena in the drain queue is one lease and one rotation: the
/// arena that the lease is on is retired with it, and the next epoch begins.
pub proof fn queue_steps_retire_a_leased_arena<
    F: Fn(usize) -> Result<&'static mut [u8], OsError>,
>(before: PoolView, after: PoolView, source: F, len: usize, buf: LeasedBuffer)
    requires
        queue_step(before, after, source, len, buf),
    ensures
        exists|mid: PoolView| #[trigger]
            leases_or_refreshes(before, mid, source, len, Ok(buf))
                && crate::buffer::pool::pool_rotates(
                mid,
                after,
                source,
                Ok::<(), TurbineError>(()),
            ),
{
}

} // verus!
