//! What the operations on the pool change, and what they leave alone.
use vstd::prelude::*;

use crate::buffer::leased::{Lease, LeasedBuffer};
use crate::buffer::ledger::PoolView;
use crate::config::PoolConfig;
use crate::epoch::arena::{ArenaState, Region};
use crate::error::{OsError, TurbineError};
use crate::gc::HookCall;
use crate::types::ArenaIdx;

verus! {

impl Lease {
    /// A lease covers as many bytes of its arena as it is long, from its start on.
    pub proof fn leases_cover_their_range(self, arena: crate::epoch::arena::ArenaView)
        requires
            self.start + self.len <= arena.bytes.len(),
        ensures
            self.end() == self.start + self.len,
            self.of(arena).len() == self.len,
            forall|k: int|
                0 <= k < self.len ==> #[trigger] self.of(arena)[k] == arena.bytes[self.start + k],
    {
    }

    /// Two leases are apart exactly if no byte of an arena lies in both, provided
    /// that neither is empty.
    pub proof fn leases_apart_share_no_byte(self, other: Lease)
        requires
            self.len > 0,
            other.len > 0,
        ensures
            self.apart(other) <==> !(self.arena == other.arena && exists|k: int|
                self.start <= k < self.start + self.len && #[trigger] other.covers(k)),
    {
        if self.arena == other.arena && !self.apart(other) {
            let k = if self.start <= other.start {
                other.start as int
            } else {
                self.start as int
            };
            assert(other.covers(k));
        }
    }

    /// The byte at `k` of the arena belongs to the lease.
    pub open spec fn covers(self, k: int) -> bool {
        self.start <= k < self.start + self.len
    }
}

impl PoolView {
    /// Nothing about the registration, the leases and the history of hook calls
    /// has changed.
    pub open spec fn only_arenas_changed(self, after: PoolView) -> bool {
        &&& after.reg == self.reg
        &&& after.leases == self.leases
        &&& after.issued == self.issued
        &&& after.calls == self.calls
    }

    /// Nothing but the registration has changed.
    pub open spec fn only_registration_changed(self, after: PoolView) -> bool {
        &&& after.manager == self.manager
        &&& after.leases == self.leases
        &&& after.issued == self.issued
        &&& after.calls == self.calls
    }

    /// A new pool has the arenas and the slots of its configuration, no lease is
    /// out, and no hook was called.
    pub proof fn new_pools_follow_their_config(config: PoolConfig, regions: Seq<Region>)
        requires
            regions.len() == config.initial_arenas,
            config.initial_arenas >= 1,
        ensures
            ({
                let v = PoolView::initial(config, regions);
                &&& v.manager.arena_size == config.arena_size
                &&& v.manager.page_size == config.page_size
                &&& v.manager.max_free == config.max_free_arenas
                &&& v.manager.max_arenas == config.max_total_arenas
                &&& v.manager.slab.len() == config.initial_arenas
                &&& v.manager.write == 0
                &&& v.manager.epoch == 0
                &&& v.manager.draining.len() == 0
                &&& v.manager.free.len() == config.initial_arenas - 1
                &&& v.reg.slots.capacity == config.registration_slots
                &&& forall|s: int| !(#[trigger] v.reg.slots.taken.contains(s))
                &&& forall|i: int| !(#[trigger] v.reg.held.contains_key(i))
                &&& !v.reg.registered
                &&& v.reg.generation == 0
                &&& forall|l: Lease| !(#[trigger] v.leases.contains(l))
                &&& v.issued == 0
                &&& v.calls.len() == 0
            }),
    {
        crate::epoch::model::ManagerView::new_managers_follow_their_config(config, regions);
    }

    /// The slot that buffers of the written arena carry: its own, or zero while it
    /// has none.
    pub proof fn buffers_carry_the_slot_of_their_arena(self, len: usize, buf: LeasedBuffer)
        requires
            crate::buffer::pool::is_next(self, len, buf),
        ensures
            self.reg.held.contains_key(self.manager.write) ==> buf.slot()
                == self.reg.held[self.manager.write],
            !self.reg.held.contains_key(self.manager.write) ==> buf.slot() == 0,
            buf.lease().arena == self.manager.write,
            buf.lease().start == self.manager.slab[self.manager.write]->0.used,
            buf.lease().len == len,
            buf.lease().epoch == self.manager.slab[self.manager.write]->0.epoch,
            buf.lease().home == self.manager.slab[self.manager.write]->0.id,
            buf.lease().number == self.issued,
            buf.id() == self.manager.slab[self.manager.write]->0.next_buf_id,
    {
    }

    /// A lease succeeds exactly if the bytes fit behind what the written arena has
    /// handed out. The buffer is about just these bytes, in the current epoch. The
    /// arena counts them and the lease, the lease is entered, and the hook is told;
    /// nothing else changes.
    pub proof fn leasing_takes_bytes_of_the_written_arena(
        self,
        after: PoolView,
        len: usize,
        r: Option<LeasedBuffer>,
    )
        requires
            self.wf(),
            crate::buffer::pool::pool_leases(self, after, len, r),
        ensures
            ({
                let w = self.manager.write;
                let arena = self.manager.slab[w]->0;
                &&& r is Some <==> arena.used + len <= arena.bytes.len()
                &&& r is None ==> after == self
                &&& r matches Some(buf) ==> {
                    let taken = after.manager.slab[w]->0;
                    &&& buf.lease().arena == w
                    &&& buf.lease().start == arena.used
                    &&& buf.lease().len == len
                    &&& buf.lease().epoch == self.manager.epoch
                    &&& buf.id() == arena.next_buf_id
                    &&& after.manager.slab[w] is Some
                    &&& taken.used == arena.used + len
                    &&& taken.acquired == arena.acquired + 1
                    &&& taken.returned == arena.returned
                    &&& taken.bytes == arena.bytes
                    &&& taken.id == arena.id
                    &&& taken.state == arena.state
                    &&& taken.epoch == arena.epoch
                    &&& after.manager.slab.len() == self.manager.slab.len()
                    &&& forall|i: int|
                        0 <= i < self.manager.slab.len() && i != w
                            ==> #[trigger] after.manager.slab[i] == self.manager.slab[i]
                    &&& after.manager.write == w
                    &&& after.manager.epoch == self.manager.epoch
                    &&& after.manager.draining == self.manager.draining
                    &&& after.manager.free == self.manager.free
                    &&& after.manager.advice == self.manager.advice
                    &&& after.manager.unmapped == self.manager.unmapped
                    &&& self.manager.settings_kept(after.manager)
                    &&& after.reg == self.reg
                    &&& forall|l: Lease| #[trigger]
                        after.leases.contains(l) <==> self.leases.contains(l) || l == buf.lease()
                    &&& !self.leases.contains(buf.lease())
                    &&& after.issued == self.issued + 1
                    &&& after.calls.len() == self.calls.len() + 1
                    &&& forall|k: int|
                        0 <= k < self.calls.len() ==> #[trigger] after.calls[k] == self.calls[k]
                    &&& after.calls.last() == (HookCall::Pin {
                        epoch: self.manager.epoch,
                        buf_id: buf.id(),
                    })
                }
            }),
    {
        assert(self.manager.live(self.manager.write));
        assert(self.manager.current().wf());
        if let Some(buf) = r {
            if self.leases.contains(buf.lease()) {
                assert(self.valid(buf.lease()));
            }
        }
    }

    /// A lease that comes back leaves the ledger, and its arena counts one lease
    /// less; it is recorded apart where another thread gave it back. Nothing else
    /// changes.
    pub proof fn giving_back_ends_one_lease(self, l: Lease)
        requires
            self.wf(),
            self.leases.contains(l),
        ensures
            ({
                let before = self.manager.slab[l.arena]->0;
                let local = self.given_back(l).manager.slab[l.arena]->0;
                let remote = self.returned(l).manager.slab[l.arena]->0;
                &&& local.acquired + 1 == before.acquired
                &&& local.returned == before.returned
                &&& remote.acquired == before.acquired
                &&& remote.returned == before.returned + 1
                &&& self.ends(self.given_back(l), l)
                &&& self.ends(self.returned(l), l)
            }),
    {
        self.giving_back_is_sound(l);
    }

    /// The lease is over, and but for the counters of its arena nothing else has
    /// changed.
    pub open spec fn ends(self, after: PoolView, l: Lease) -> bool {
        let arena = self.manager.slab[l.arena]->0;
        let freed = after.manager.slab[l.arena]->0;
        &&& forall|m: Lease| #[trigger]
            after.leases.contains(m) <==> self.leases.contains(m) && m != l
        &&& after.manager.slab.len() == self.manager.slab.len()
        &&& after.manager.slab[l.arena] is Some
        &&& freed.id == arena.id
        &&& freed.bytes == arena.bytes
        &&& freed.used == arena.used
        &&& freed.next_buf_id == arena.next_buf_id
        &&& freed.state == arena.state
        &&& freed.epoch == arena.epoch
        &&& forall|i: int|
            0 <= i < self.manager.slab.len() && i != l.arena ==> #[trigger] after.manager.slab[i]
                == self.manager.slab[i]
        &&& after.manager.write == self.manager.write
        &&& after.manager.epoch == self.manager.epoch
        &&& after.manager.draining == self.manager.draining
        &&& after.manager.free == self.manager.free
        &&& after.manager.advice == self.manager.advice
        &&& after.manager.unmapped == self.manager.unmapped
        &&& self.manager.settings_kept(after.manager)
        &&& after.reg == self.reg
        &&& after.issued == self.issued
        &&& after.calls == self.calls
    }

    /// Writing through a lease changes the bytes of the lease and nothing else.
    pub proof fn writing_changes_only_leased_bytes(self, l: Lease, data: Seq<u8>)
        requires
            self.wf(),
            self.leases.contains(l),
            data.len() == l.len,
        ensures
            ({
                let after = self.written(l, data);
                let arena = self.manager.slab[l.arena]->0;
                let changed = after.manager.slab[l.arena]->0;
                &&& self.only_arenas_changed(after)
                &&& changed.bytes.len() == arena.bytes.len()
                &&& forall|k: int|
                    0 <= k < arena.bytes.len() ==> #[trigger] changed.bytes[k] == if l.start <= k
                        < l.start + l.len {
                        data[k - l.start]
                    } else {
                        arena.bytes[k]
                    }
                &&& changed.id == arena.id
                &&& changed.used == arena.used
                &&& changed.next_buf_id == arena.next_buf_id
                &&& changed.acquired == arena.acquired
                &&& changed.returned == arena.returned
                &&& changed.state == arena.state
                &&& changed.epoch == arena.epoch
                &&& after.manager.slab.len() == self.manager.slab.len()
                &&& after.manager.slab[l.arena] is Some
                &&& forall|i: int|
                    0 <= i < self.manager.slab.len() && i != l.arena
                        ==> #[trigger] after.manager.slab[i] == self.manager.slab[i]
                &&& after.manager.write == self.manager.write
                &&& after.manager.epoch == self.manager.epoch
                &&& after.manager.draining == self.manager.draining
                &&& after.manager.free == self.manager.free
                &&& after.manager.advice == self.manager.advice
                &&& after.manager.unmapped == self.manager.unmapped
                &&& self.manager.settings_kept(after.manager)
            }),
    {
        assert(self.valid(l));
        let arena = self.manager.arena(l.arena);
        assert(arena.wf());
        arena.writing_changes_only_the_range(l.start as int, data);
        self.manager.replacing_an_arena_is_local(
            l.arena,
            arena.with_bytes(l.start as int, data),
        );
    }

    /// Collecting sweeps the arenas and tells the hook how many it freed. Leases
    /// and registration are untouched.
    pub proof fn collecting_sweeps_and_reports(self)
        requires
            self.wf(),
        ensures
            self.collected().manager == self.manager.collected(),
            self.collected().reg == self.reg,
            self.collected().leases == self.leases,
            self.collected().issued == self.issued,
            self.collected().calls.len() == self.calls.len() + 1,
            forall|k: int|
                0 <= k < self.calls.len() ==> #[trigger] self.collected().calls[k]
                    == self.calls[k],
            self.collected().calls.last() == (HookCall::Sweep {
                collected: self.collected().manager.free.len() - self.manager.free.len(),
            }),
    {
        self.manager.sweeps_keep_the_order();
    }

    /// Shrinking drops the excess arenas and tells the hook about each, in the
    /// order in which they go. Leases and registration are untouched.
    pub proof fn shrinking_drops_and_reports(self)
        requires
            self.wf(),
        ensures
            ({
                let after = self.shrunk();
                let n = self.manager.free.len() as int;
                let gone = n - after.manager.free.len();
                &&& after.manager == self.manager.shrunk()
                &&& gone == if n > self.manager.max_free {
                    n - self.manager.max_free
                } else {
                    0
                }
                &&& after.reg == self.reg
                &&& after.leases == self.leases
                &&& after.issued == self.issued
                &&& after.calls.len() == self.calls.len() + gone
                &&& forall|k: int|
                    0 <= k < self.calls.len() ==> #[trigger] after.calls[k] == self.calls[k]
                &&& forall|k: int|
                    0 <= k < gone ==> #[trigger] after.calls[self.calls.len() + k] == (
                    HookCall::ArenaFree { arena: self.manager.free[n - 1 - k] })
            }),
    {
        self.manager.shrinking_removes_the_excess();
    }

    /// Reclaiming an epoch is about the first arena of the slab that carries it.
    /// It fails exactly if there is none or a lease on it is out, and then nothing
    /// changes. Otherwise that arena is collected and otherwise as it was, the hook
    /// is told, and nothing else changes.
    pub proof fn reclaiming_collects_the_arena_of_the_epoch(
        self,
        after: PoolView,
        epoch: u64,
        r: Result<(), TurbineError>,
        at: int,
    )
        requires
            self.wf(),
            crate::buffer::pool::pool_reclaims(self, after, epoch, r),
            0 <= at <= self.manager.slab.len(),
            at < self.manager.slab.len() ==> self.manager.slab[at] is Some
                && self.manager.slab[at]->0.epoch == epoch,
            forall|i: int|
                0 <= i < at && (#[trigger] self.manager.slab[i]) is Some
                    ==> self.manager.slab[i]->0.epoch != epoch,
        ensures
            ({
                let slab = self.manager.slab;
                let arena = slab[at]->0;
                &&& at == slab.len() ==> after == self && (r matches Err(
                    TurbineError::EpochNotFound(e),
                ) && e == epoch)
                &&& at < slab.len() && arena.acquired > arena.returned ==> after == self && (
                r matches Err(TurbineError::EpochNotCollectable(e, leases)) && e == epoch && leases
                    == arena.acquired - arena.returned)
                &&& at < slab.len() && arena.acquired == arena.returned ==> {
                    &&& r is Ok
                    &&& after.manager.slab.len() == slab.len()
                    &&& after.manager.slab[at] is Some
                    &&& after.manager.slab[at]->0.state == ArenaState::Collected
                    &&& crate::epoch::effects::same_but_state(arena, after.manager.slab[at]->0)
                    &&& forall|i: int|
                        0 <= i < slab.len() && i != at ==> #[trigger] after.manager.slab[i]
                            == slab[i]
                    &&& after.manager.write == self.manager.write
                    &&& after.manager.epoch == self.manager.epoch
                    &&& after.manager.draining == self.manager.draining
                    &&& after.manager.free == self.manager.free
                    &&& after.manager.advice == self.manager.advice
                    &&& after.manager.unmapped == self.manager.unmapped
                    &&& self.manager.settings_kept(after.manager)
                    &&& after.reg == self.reg
                    &&& after.leases == self.leases
                    &&& after.issued == self.issued
                    &&& after.calls.len() == self.calls.len() + 1
                    &&& forall|k: int|
                        0 <= k < self.calls.len() ==> #[trigger] after.calls[k] == self.calls[k]
                    &&& after.calls.last() == (HookCall::Collect { epoch })
                }
            }),
    {
        self.manager.epochs_are_looked_up_in_slab_order(epoch);
        let found = self.manager.serving(epoch);
        if found < at {
            assert(self.manager.slab[found]->0.epoch != epoch);
        }
        if at < found {
            assert(self.manager.slab[at]->0.epoch != epoch);
        }
        assert(found == at);
        if at < self.manager.slab.len() {
            assert(self.manager.live(at));
            assert(self.manager.arena(at).wf());
        }
    }

    /// While an arena is free, a rotation succeeds and moves on to the one that
    /// was freed last. Its memory and the registration stay as they are, the hook
    /// is told of the two epochs, and no lease changes.
    pub proof fn rotations_of_the_pool_reuse_free_arenas<
        F: Fn(usize) -> Result<&'static mut [u8], OsError>,
    >(self, after: PoolView, source: F, r: Result<(), TurbineError>)
        requires
            self.wf(),
            self.manager.epoch < u64::MAX,
            self.manager.free.len() > 0,
            crate::buffer::pool::pool_rotates(self, after, source, r),
        ensures
            ({
                let to = self.manager.free.last();
                &&& r is Ok
                &&& self.manager.moved_on(after.manager, to)
                &&& after.manager.free.len() == self.manager.free.len() - 1
                &&& forall|k: int|
                    0 <= k < after.manager.free.len() ==> #[trigger] after.manager.free[k]
                        == self.manager.free[k]
                &&& after.manager.slab.len() == self.manager.slab.len()
                &&& after.manager.slab[to]->0.bytes == self.manager.slab[to]->0.bytes
                &&& after.manager.slab[to]->0.id == self.manager.slab[to]->0.id
                &&& after.reg == self.reg
                &&& after.leases == self.leases
                &&& after.issued == self.issued
                &&& after.calls.len() == self.calls.len() + 1
                &&& forall|k: int|
                    0 <= k < self.calls.len() ==> #[trigger] after.calls[k] == self.calls[k]
                &&& after.calls.last() matches HookCall::Rotate { retired, active }
                &&& retired == self.manager.epoch
                &&& active == self.manager.epoch + 1
            }),
    {
        self.manager.reusing_moves_on();
    }

    /// While no arena is free, a rotation sweeps the drain queue first, without
    /// telling the hook: it does what it would do after that sweep.
    pub proof fn rotations_of_the_pool_sweep_when_nothing_is_free<
        F: Fn(usize) -> Result<&'static mut [u8], OsError>,
    >(self, after: PoolView, source: F, r: Result<(), TurbineError>)
        requires
            self.wf(),
            self.manager.free.len() == 0,
            crate::buffer::pool::pool_rotates(self, after, source, r),
        ensures
            crate::buffer::pool::pool_rotates(
                (PoolView { manager: self.manager.collected(), ..self }),
                after,
                source,
                r,
            ),
    {
        if self.manager.swept().len() == 0 {
            self.manager.empty_sweep_is_identity();
        }
    }

    /// While no arena is free and none can be swept, a rotation maps an arena,
    /// unless as many are mapped as may be: it fails only then, or if mapping
    /// fails, and then nothing changes.
    pub proof fn rotations_of_the_pool_map_arenas_within_the_limit<
        F: Fn(usize) -> Result<&'static mut [u8], OsError>,
    >(self, after: PoolView, source: F, r: Result<(), TurbineError>)
        requires
            self.wf(),
            self.manager.epoch < u64::MAX,
            self.manager.free.len() == 0,
            self.manager.collected().free.len() == 0,
            crate::buffer::pool::pool_rotates(self, after, source, r),
        ensures
            ({
                let v = self.manager;
                let mapped = v.arenas_mapped().len();
                let at = after.manager.write;
                &&& v.max_arenas > 0 && mapped >= v.max_arenas ==> (r matches Err(
                    TurbineError::ArenaLimitExceeded { current, max },
                ) && current == mapped && max == v.max_arenas)
                &&& v.max_arenas == 0 || mapped < v.max_arenas ==> r is Ok || (r matches Err(
                    TurbineError::Mmap(os),
                ) && call_ensures(source, (v.arena_size,), Err(os)))
                &&& r is Err ==> after == self
                &&& r is Ok ==> {
                    &&& v.moved_on(after.manager, at)
                    &&& after.manager.free.len() == 0
                    &&& 0 <= at <= v.slab.len()
                    &&& at < v.slab.len() ==> v.slab[at] is None && after.manager.slab.len()
                        == v.slab.len()
                    &&& at == v.slab.len() ==> after.manager.slab.len() == v.slab.len() + 1
                    &&& forall|i: int| 0 <= i < at ==> (#[trigger] v.slab[i]) is Some
                    &&& after.manager.slab[at]->0.bytes.len() == v.arena_size
                    &&& crate::epoch::manager::is_mapped(
                        source,
                        v.arena_size,
                        after.manager.slab[at]->0.bytes,
                    )
                    &&& after.leases == self.leases
                    &&& after.issued == self.issued
                    &&& after.calls.len() == self.calls.len() + 2
                    &&& forall|k: int|
                        0 <= k < self.calls.len() ==> #[trigger] after.calls[k] == self.calls[k]
                    &&& after.calls.last() == (HookCall::ArenaAlloc { arena: at })
                    &&& after.calls[self.calls.len() as int] matches HookCall::Rotate {
                        retired,
                        active,
                    }
                    &&& retired == v.epoch
                    &&& active == v.epoch + 1
                }
            }),
    {
        self.manager.live_arenas_are_counted();
        if r is Ok {
            let region = choose|region: Region|
                crate::epoch::manager::is_mapped(source, self.manager.arena_size, region.bytes)
                    && region.bytes.len() == self.manager.arena_size && after
                    == #[trigger] self.extended(region);
            self.manager.growing_moves_on(region);
        }
    }

    /// An arena that a rotation maps gets the lowest free registration slot, if
    /// one is left, whether or not the ring is registered: a slot that nobody had,
    /// and that every buffer of the arena carries from then on. No other arena's
    /// slot changes. If no slot is left, or nothing is mapped, the registration
    /// stays as it is.
    pub proof fn mapped_arenas_get_a_slot<F: Fn(usize) -> Result<&'static mut [u8], OsError>>(
        self,
        after: PoolView,
        source: F,
        r: Result<(), TurbineError>,
        len: usize,
        buf: LeasedBuffer,
    )
        requires
            self.wf(),
            self.manager.epoch < u64::MAX,
            crate::buffer::pool::pool_rotates(self, after, source, r),
            crate::buffer::pool::is_next(after, len, buf),
        ensures
            ({
                let w = after.manager.write;
                let mapped = !(w < self.manager.slab.len() && self.manager.slab[w] is Some);
                let left = exists|s: int|
                    0 <= s < self.reg.slots.capacity && !self.reg.slots.taken.contains(s);
                &&& mapped && left ==> {
                    &&& r is Ok
                    &&& after.reg.held.contains_key(w)
                    &&& self.reg.slots.is_lowest_free(after.reg.held[w])
                    &&& buf.slot() == after.reg.held[w]
                    &&& forall|j: int| #[trigger]
                        after.reg.held.contains_key(j) && j != w ==> after.reg.held[j]
                            != after.reg.held[w]
                    &&& self.reg.others_keep_slots(after.reg, set![w])
                    &&& forall|s: int| #[trigger]
                        after.reg.slots.taken.contains(s) <==> self.reg.slots.taken.contains(s) || s
                            == after.reg.held[w]
                    &&& after.reg.slots.capacity == self.reg.slots.capacity
                    &&& after.reg.registered == self.reg.registered
                    &&& self.reg.generation < u64::MAX ==> after.reg.generation
                        == self.reg.generation + 1
                }
                &&& !(mapped && left) ==> after.reg == self.reg
            }),
    {
        let v = self.manager;
        let w = after.manager.write;
        self.reg.slots.lowest_free_slot_is_next();
        assert(v.live(v.write));
        if v.ready().free.len() > 0 {
            let mid = v.ready();
            v.collected_is_sound();
            assert(mid.live(mid.free[mid.free.len() - 1]));
            assert(v.live(mid.free[mid.free.len() - 1]));
        } else if r is Ok {
            let region = choose|region: Region|
                crate::epoch::manager::is_mapped(source, v.arena_size, region.bytes)
                    && region.bytes.len() == v.arena_size && after == #[trigger] self.extended(
                    region,
                );
            v.growing_moves_on(region);
            if !self.reg.slots.full() {
                self.reg.arenas_get_the_lowest_free_slot(w);
                assert forall|j: int| #[trigger]
                    after.reg.held.contains_key(j) && j != w implies after.reg.held[j]
                    != after.reg.held[w] by {
                    assert(self.reg.held.contains_key(j));
                }
            }
        }
    }

    /// A lease that does not fit rotates. If that fails, nothing changes and the
    /// error is the rotation's. If not, it succeeds exactly if the bytes fit an
    /// arena, and gets the first ones of the next arena in the next epoch;
    /// otherwise the error says how many were asked for and how many an arena has.
    pub proof fn leases_that_do_not_fit_rotate<F: Fn(usize) -> Result<&'static mut [u8], OsError>>(
        self,
        after: PoolView,
        source: F,
        len: usize,
        r: Result<LeasedBuffer, TurbineError>,
    )
        requires
            self.wf(),
            self.manager.epoch < u64::MAX,
            crate::buffer::pool::lease_rotates(self, after, source, len, r),
        ensures
            r matches Ok(buf) ==> {
                &&& len <= self.manager.arena_size
                &&& buf.lease().start == 0
                &&& buf.lease().len == len
                &&& buf.lease().epoch == self.manager.epoch + 1
                &&& buf.lease().arena == after.manager.write
                &&& after.manager.write != self.manager.write
                &&& after.manager.epoch == self.manager.epoch + 1
                &&& after.leases.contains(buf.lease())
                &&& exists|mid: PoolView| #[trigger]
                    crate::buffer::pool::pool_rotates(
                        self,
                        mid,
                        source,
                        Ok::<(), TurbineError>(()),
                    ) && crate::buffer::pool::pool_leases(mid, after, len, Some(buf))
            },
            r matches Err(TurbineError::ArenaFull { requested, available }) ==> {
                &&& requested == len
                &&& available == self.manager.arena_size
                &&& len > self.manager.arena_size
                &&& crate::buffer::pool::pool_rotates(
                    self,
                    after,
                    source,
                    Ok::<(), TurbineError>(()),
                )
            },
            r matches Err(e) ==> !(e is ArenaFull) ==> after == self
                && crate::buffer::pool::pool_rotates(
                self,
                after,
                source,
                Err::<(), TurbineError>(e),
            ),
    {
        if let Ok(buf) = r {
            let mid = choose|mid: PoolView| #[trigger]
                crate::buffer::pool::pool_rotates(self, mid, source, Ok::<(), TurbineError>(()))
                    && crate::buffer::pool::is_next(mid, len, buf) && after == mid.leased(
                    len as nat,
                );
            let v = self.manager;
            assert(v.live(v.write));
            if v.ready().free.len() > 0 {
                let ready = v.ready();
                v.collected_is_sound();
                self.ready_is_sound();
                ready.reusing_moves_on();
                assert(ready.live(ready.free[ready.free.len() - 1]));
                assert(ready.arena(ready.free[ready.free.len() - 1]).wf());
                assert(ready.write == v.write && ready.epoch == v.epoch);
            } else {
                let region = choose|region: Region|
                    crate::epoch::manager::is_mapped(source, v.arena_size, region.bytes)
                        && region.bytes.len() == v.arena_size && mid == #[trigger] self.extended(
                        region,
                    );
                v.growing_moves_on(region);
            }
            assert(crate::buffer::pool::pool_leases(mid, after, len, Some(buf)));
        }
    }

    /// Preparing a registration gives each arena a slot that was free, ascending
    /// in slab order, and lists each at its slot and nobody else. If there are too
    /// few slots, the error names the first arena without one. Nothing but the
    /// registration changes.
    pub proof fn registering_lists_every_arena(
        self,
        after: PoolView,
        r: Result<Vec<Option<ArenaIdx>>, TurbineError>,
    )
        requires
            self.wf(),
            crate::buffer::pool::pool_registers(self, after, r),
        ensures
            ({
                let arenas = self.manager.live_from(0);
                let room = self.reg.slots.capacity - self.reg.slots.taken.len();
                &&& self.only_registration_changed(after)
                &&& after.reg.registered == self.reg.registered
                &&& after.reg.generation == self.reg.generation
                &&& after.reg.slots.capacity == self.reg.slots.capacity
                &&& r is Ok <==> self.manager.arenas_mapped().len() <= room
                &&& r matches Ok(table) ==> {
                    &&& table@.len() == self.reg.slots.capacity
                    &&& forall|i: int| #[trigger]
                        self.manager.arenas_mapped().contains(i) ==> {
                            &&& after.reg.held.contains_key(i)
                            &&& 0 <= after.reg.held[i] < self.reg.slots.capacity
                            &&& !self.reg.slots.taken.contains(after.reg.held[i])
                            &&& table@[after.reg.held[i]] is Some
                            &&& table@[after.reg.held[i]]->0@ == i
                        }
                    &&& forall|i: int, j: int|
                        i < j && #[trigger] self.manager.arenas_mapped().contains(i)
                            && #[trigger] self.manager.arenas_mapped().contains(j)
                            ==> after.reg.held[i] < after.reg.held[j]
                    &&& forall|s: int|
                        0 <= s < table@.len() && #[trigger] table@[s] is Some
                            ==> self.manager.arenas_mapped().contains(table@[s]->0@)
                            && after.reg.held[table@[s]->0@] == s
                }
                &&& r matches Err(e) ==> {
                    &&& e matches TurbineError::NoRegistrationSlot(idx)
                    &&& self.manager.arenas_mapped().contains(idx@)
                    &&& forall|i: int| #[trigger]
                        self.manager.arenas_mapped().contains(i) && i < idx@
                            ==> after.reg.held.contains_key(i) && !self.reg.slots.taken.contains(
                            after.reg.held[i],
                        )
                }
            }),
    {
        let arenas = self.manager.live_from(0);
        self.manager.live_arenas_are_counted();
        self.manager.live_list_counts();
        self.manager.live_list_is_exact(0);
        self.manager.listed_arenas_are_the_mapped_ones();
        self.reg.slots.room_counts();
        assert forall|k: int| 0 <= k < arenas.len() implies 0 <= #[trigger] arenas[k]
            < usize::MAX by {
            assert(arenas.contains(arenas[k]));
            assert(self.manager.live(arenas[k]));
        }
        self.reg.registering_hands_slots_out_in_order(arenas);
        if let Ok(table) = r {
            self.reg.table_matches_slots(arenas);
            let full = self.reg.table_of(
                arenas,
                crate::ring::registration::empty_table(self.reg.slots.capacity),
            );
            assert forall|s: int| 0 <= s < table@.len() implies #[trigger] full[s]
                == match table@[s] {
                Some(idx) => Some(idx@),
                None => None,
            } by {
                assert(crate::ring::registration::slot_table(table@)[s] == full[s]);
            }
            assert forall|i: int| #[trigger] self.manager.arenas_mapped().contains(i) implies {
                &&& after.reg.held.contains_key(i)
                &&& 0 <= after.reg.held[i] < self.reg.slots.capacity
                &&& !self.reg.slots.taken.contains(after.reg.held[i])
                &&& table@[after.reg.held[i]] is Some
                &&& table@[after.reg.held[i]]->0@ == i
            } by {
                assert(arenas.contains(i));
                let k = choose|k: int| 0 <= k < arenas.len() && arenas[k] == i;
                assert(after.reg.held.contains_key(arenas[k]));
                assert(full[after.reg.held[arenas[k]]] == Some(i));
            }
            assert forall|i: int, j: int|
                i < j && #[trigger] self.manager.arenas_mapped().contains(i)
                    && #[trigger] self.manager.arenas_mapped().contains(j) implies after.reg.held[i]
                < after.reg.held[j] by {
                assert(arenas.contains(i) && arenas.contains(j));
                let a = choose|a: int| 0 <= a < arenas.len() && arenas[a] == i;
                let b = choose|b: int| 0 <= b < arenas.len() && arenas[b] == j;
                if b < a {
                    assert(arenas[b] < arenas[a]);
                }
                assert(after.reg.held[arenas[a]] < after.reg.held[arenas[b]]);
            }
            assert forall|s: int| 0 <= s < table@.len() && #[trigger] table@[s] is Some implies
                self.manager.arenas_mapped().contains(table@[s]->0@)
                && after.reg.held[table@[s]->0@] == s by {
                assert(full[s] == Some(table@[s]->0@));
                assert(arenas.contains(full[s]->0));
            }
        }
        if let Err(e) = r {
            let n = self.reg.slots.room();
            assert(arenas.contains(arenas[n]));
            assert forall|i: int| #[trigger]
                self.manager.arenas_mapped().contains(i) && i < arenas[n] implies
                after.reg.held.contains_key(i) && !self.reg.slots.taken.contains(
                after.reg.held[i],
            ) by {
                assert(arenas.contains(i));
                let k = choose|k: int| 0 <= k < arenas.len() && arenas[k] == i;
                if k > n {
                    assert(arenas[n] < arenas[k]);
                }
                assert(after.reg.held.contains_key(arenas[k]));
            }
        }
    }

    /// What the ring says decides over a registration: if it accepts, the buffers
    /// are registered and the generation counts on, and otherwise nothing changes
    /// and its error comes back. Slots stay as they are.
    pub proof fn the_ring_decides_over_registrations(
        self,
        after: PoolView,
        outcome: Result<(), OsError>,
        r: Result<(), TurbineError>,
    )
        requires
            self.reg.generation < u64::MAX,
            crate::buffer::pool::pool_finishes(self, after, outcome, r),
        ensures
            self.only_registration_changed(after),
            after.reg.slots == self.reg.slots,
            after.reg.held == self.reg.held,
            after.reg.span == self.reg.span,
            outcome is Ok ==> r is Ok && after.reg.registered && after.reg.generation
                == self.reg.generation + 1,
            outcome matches Err(e) ==> after == self && (r matches Err(TurbineError::Registration(
                said,
            )) && said == e),
    {
    }

    /// Unregistering frees every slot, leaves no arena with one and counts the
    /// generation on, if the buffers are registered and the ring agrees. If they
    /// are not registered, nothing happens; if the ring refuses, its error comes
    /// back and nothing changes.
    pub proof fn unregistering_frees_all_slots(
        self,
        after: PoolView,
        outcome: Result<(), OsError>,
        r: Result<(), TurbineError>,
    )
        requires
            self.reg.generation < u64::MAX,
            crate::buffer::pool::pool_unregisters(self, after, outcome, r),
        ensures
            self.only_registration_changed(after),
            !self.reg.registered ==> r is Ok && after == self,
            self.reg.registered && outcome is Ok ==> {
                &&& r is Ok
                &&& !after.reg.registered
                &&& after.reg.generation == self.reg.generation + 1
                &&& after.reg.slots.capacity == self.reg.slots.capacity
                &&& forall|s: int| !(#[trigger] after.reg.slots.taken.contains(s))
                &&& forall|i: int| !(#[trigger] after.reg.held.contains_key(i))
            },
            self.reg.registered ==> (outcome matches Err(e) ==> after == self && (r matches Err(
                TurbineError::Registration(said),
            ) && said == e)),
    {
    }
}

} // verus!
