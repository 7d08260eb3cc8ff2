//! The pool: leases out of epoch arenas, rotation and reclamation.
use std::marker::PhantomData;
use std::rc::Rc;
use vstd::prelude::*;

use crate::buffer::leased::{Lease, LeasedBuffer};
use crate::buffer::ledger::PoolView;
use crate::config::PoolConfig;
use crate::epoch::arena::{Arena, ArenaState, PageRange, Region};
use crate::epoch::manager::{ArenaManager, SetupFailure};
use crate::epoch::model::ManagerView;
use crate::error::{OsError, TurbineError};
use crate::gc::{BufferPinHook, EpochObserver, Notifier};
use crate::ring::registration::{RegistrationView, RingRegistration};
use crate::transfer::handle::SendableBuffer;
use crate::types::{ArenaIdx, SlotId};

verus! {

/// The main API for epoch-based io_uring buffer management.
///
/// Owns an [`ArenaManager`] (slab of arenas with drain queue and free pool) and
/// a [`RingRegistration`], and keeps account of the leases that are out. New
/// memory comes from a source `F`; `close` hands it out at the end. Dropping the
/// pool leaves its memory mapped.
pub struct IouringBufferPool<H, F> {
    manager: ArenaManager<F>,
    registration: RingRegistration,
    hooks: Notifier<H>,
    leases: Ghost<Set<Lease>>,
    issued: Ghost<nat>,
    /// Keeps the pool on its thread.
    _not_send: PhantomData<Rc<()>>,
}

impl<H, F> View for IouringBufferPool<H, F> {
    type V = PoolView;

    closed spec fn view(&self) -> PoolView {
        PoolView {
            manager: self.manager@,
            reg: self.registration@,
            leases: self.leases@,
            issued: self.issued@,
            calls: self.hooks@,
        }
    }
}

/// What a rotation of the pool does, and what it answers, when new memory comes
/// from `source`.
pub open spec fn pool_rotates<F>(
    before: PoolView,
    after: PoolView,
    source: F,
    r: Result<(), TurbineError>,
) -> bool where F: Fn(usize) -> Result<&'static mut [u8], OsError> {
    if before.manager.ready().free.len() > 0 {
        r is Ok && after == before.reused()
    } else if before.manager.at_limit() {
        &&& after == before
        &&& r matches Err(TurbineError::ArenaLimitExceeded { current, max })
        &&& current == before.manager.live_count()
        &&& max == before.manager.max_arenas
    } else {
        match r {
            Ok(_) => exists|region: Region|
                crate::epoch::manager::is_mapped(source, before.manager.arena_size, region.bytes)
                    && region.bytes.len() == before.manager.arena_size && after
                    == #[trigger] before.extended(region),
            Err(e) => {
                &&& after == before
                &&& e matches TurbineError::Mmap(os)
                &&& call_ensures(source, (before.manager.arena_size,), Err(os))
            },
        }
    }
}

/// What a lease of `len` bytes does, and what it answers.
pub open spec fn pool_leases(
    before: PoolView,
    after: PoolView,
    len: usize,
    r: Option<LeasedBuffer>,
) -> bool {
    if len <= before.manager.current().available() {
        &&& r matches Some(buf)
        &&& is_next(before, len, buf)
        &&& after == before.leased(len as nat)
    } else {
        r is None && after == before
    }
}

/// What reclaiming an epoch does, and what it answers.
pub open spec fn pool_reclaims(
    before: PoolView,
    after: PoolView,
    epoch: u64,
    r: Result<(), TurbineError>,
) -> bool {
    let i = before.manager.serving(epoch);
    if i == before.manager.slab.len() {
        &&& r == Err::<(), TurbineError>(TurbineError::EpochNotFound(epoch))
        &&& after == before
    } else if before.manager.arena(i).outstanding() > 0 {
        &&& r == Err::<(), TurbineError>(
            TurbineError::EpochNotCollectable(
                epoch,
                before.manager.arena(i).outstanding() as usize,
            ),
        )
        &&& after == before
    } else {
        r is Ok && after == before.reclaimed(i, epoch)
    }
}

/// What preparing a registration does, and what it answers.
pub open spec fn pool_registers(
    before: PoolView,
    after: PoolView,
    r: Result<Vec<Option<ArenaIdx>>, TurbineError>,
) -> bool {
    let arenas = before.manager.live_from(0);
    &&& after == (PoolView { reg: before.reg.placed_all(arenas), ..before })
    &&& if arenas.len() <= before.reg.slots.room() {
        &&& r matches Ok(table)
        &&& crate::ring::registration::slot_table(table@) == before.reg.table_of(
            arenas,
            crate::ring::registration::empty_table(before.reg.slots.capacity),
        )
    } else {
        &&& r matches Err(TurbineError::NoRegistrationSlot(idx))
        &&& idx@ == arenas[before.reg.slots.room()]
    }
}

/// What completing a registration does, given what the ring said, and what it
/// answers.
pub open spec fn pool_finishes(
    before: PoolView,
    after: PoolView,
    outcome: Result<(), OsError>,
    r: Result<(), TurbineError>,
) -> bool {
    match outcome {
        Ok(_) => {
            &&& r is Ok
            &&& after == (PoolView {
                reg: (RegistrationView { registered: true, ..before.reg }).next(),
                ..before
            })
        },
        Err(e) => {
            &&& r == Err::<(), TurbineError>(TurbineError::Registration(e))
            &&& after == before
        },
    }
}

/// What unregistering does, given what the ring said, and what it answers.
pub open spec fn pool_unregisters(
    before: PoolView,
    after: PoolView,
    outcome: Result<(), OsError>,
    r: Result<(), TurbineError>,
) -> bool {
    if !before.reg.registered {
        r is Ok && after == before
    } else {
        match outcome {
            Ok(_) => {
                &&& r is Ok
                &&& after == (PoolView {
                    reg: (RegistrationView { registered: false, ..before.reg }).cleared().next(),
                    ..before
                })
            },
            Err(e) => {
                &&& r == Err::<(), TurbineError>(TurbineError::Registration(e))
                &&& after == before
            },
        }
    }
}

/// `buf` stands for the lease of `len` bytes that `before` hands out next.
pub open spec fn is_next(before: PoolView, len: usize, buf: LeasedBuffer) -> bool {
    &&& buf.lease() == before.next_lease(len as nat)
    &&& buf.id() == before.manager.current().next_buf_id
    &&& buf.slot() == before.current_slot()
}

impl<
    H: BufferPinHook + EpochObserver,
    F: Fn(usize) -> Result<&'static mut [u8], OsError>,
> IouringBufferPool<H, F> {
    /// Where memory comes from.
    pub closed spec fn source(&self) -> F {
        self.manager.source()
    }

    /// Who is told about leases, rotations and arenas.
    pub closed spec fn hooks(&self) -> H {
        self.hooks.hooks()
    }

    /// The counter of live arenas is right and the source maps arenas of the
    /// right size.
    pub closed spec fn parts_wf(&self) -> bool {
        &&& self.manager.wf()
        &&& self.hooks.wf()
    }

    /// The pool is sound, and every call in its history of hook calls was made.
    pub open spec fn wf(&self) -> bool {
        &&& self@.wf()
        &&& self.parts_wf()
        &&& forall|k: int|
            0 <= k < self@.calls.len() ==> crate::gc::was_told(
                self.hooks(),
                #[trigger] self@.calls[k],
            )
    }

    /// The arenas.
    pub fn mgr(&self) -> (r: &ArenaManager<F>)
        ensures
            r@ == self@.manager,
            self.wf() ==> r.wf(),
            r.source() == self.source(),
    {
        &self.manager
    }

    /// The registration.
    pub fn reg(&self) -> (r: &RingRegistration)
        ensures
            r@ == self@.reg,
    {
        &self.registration
    }
}

impl<
    H: BufferPinHook + EpochObserver,
    F: Fn(usize) -> Result<&'static mut [u8], OsError>,
> IouringBufferPool<H, F> {
    /// Create a new buffer pool with the given configuration and hooks.
    ///
    /// If a mapping fails, what was mapped before it comes with the error, to be
    /// unmapped.
    pub fn new(config: PoolConfig, hooks: H, source: F) -> (r: Result<Self, SetupFailure>)
        requires
            config.valid() ==> crate::epoch::manager::maps(source, config.arena_size),
        ensures
            !config.valid() ==> (r matches Err(failure) && failure.mapped@.len() == 0 && (
            failure.error matches TurbineError::InvalidConfig(rule) && rule@
                == config.broken_rule())),
            config.valid() ==> match r {
                Ok(pool) => {
                    &&& pool.wf()
                    &&& pool.source() == source
                    &&& pool.hooks() == hooks
                    &&& pool@.manager.arena_size == config.arena_size
                    &&& pool@.manager.page_size == config.page_size
                    &&& pool@.manager.max_free == config.max_free_arenas
                    &&& pool@.manager.max_arenas == config.max_total_arenas
                    &&& pool@.reg.slots.capacity == config.registration_slots
                    &&& exists|regions: Seq<Region>|
                        crate::epoch::manager::all_mapped(
                            source,
                            config.arena_size,
                            crate::epoch::manager::region_bytes(regions),
                        ) && regions.len() == config.initial_arenas && pool@
                            == #[trigger] PoolView::initial(config, regions)
                },
                Err(failure) => {
                    &&& failure.error matches TurbineError::Mmap(os)
                    &&& call_ensures(source, (config.arena_size,), Err(os))
                    &&& failure.mapped@.len() < config.initial_arenas
                    &&& crate::epoch::manager::all_mapped(
                        source,
                        config.arena_size,
                        crate::epoch::manager::regions_view(failure.mapped@),
                    )
                },
            },
    {
        let manager = match ArenaManager::new(&config, source) {
            Ok(manager) => manager,
            Err(failure) => {
                return Err(failure);
            },
        };
        let registration = RingRegistration::new(config.registration_slots);
        let pool = Self {
            manager,
            registration,
            hooks: Notifier::new(hooks),
            leases: Ghost(Set::empty()),
            issued: Ghost(0),
            _not_send: PhantomData,
        };
        proof {
            let regions = choose|regions: Seq<Region>|
                crate::epoch::manager::all_mapped(
                    source,
                    config.arena_size,
                    crate::epoch::manager::region_bytes(regions),
                ) && regions.len() == config.initial_arenas && manager@
                    == #[trigger] ManagerView::initial(config, regions);
            let bytes = crate::epoch::manager::region_bytes(regions);
            assert(pool@ == PoolView::initial(config, regions));
            assert forall|i: int| 0 <= i < regions.len() implies (#[trigger] regions[i]).bytes.len()
                == config.arena_size by {
                assert(crate::epoch::manager::is_mapped(source, config.arena_size, bytes[i]));
            }
            PoolView::initial_is_sound(config, regions);
        }
        Ok(pool)
    }

    /// Lease `len` bytes from the current epoch's arena.
    ///
    /// Returns `None` if the arena is full.
    pub fn lease(&mut self, len: usize) -> (r: Option<LeasedBuffer>)
        requires
            old(self).wf(),
            len <= old(self)@.manager.current().available()
                ==> old(self)@.manager.current().acquired < usize::MAX,
        ensures
            final(self).wf(),
            final(self).source() == old(self).source(),
            final(self).hooks() == old(self).hooks(),
            if len <= old(self)@.manager.current().available() {
                &&& r matches Some(buf)
                &&& is_next(old(self)@, len, buf)
                &&& final(self)@ == old(self)@.leased(len as nat)
            } else {
                r is None && final(self)@ == old(self)@
            },
            pool_leases(old(self)@, final(self)@, len, r),
    {
        let ghost v = self@;
        let arena_idx: ArenaIdx = self.manager.current_arena_idx();
        let arena: &mut Arena = self.manager.current_arena_mut();
        let (start, buf_id) = match arena.allocate(len) {
            Some(got) => got,
            None => {
                proof {
                    assert(arena@ == v.manager.current());
                }
                return None;
            },
        };
        arena.acquire_lease();
        let epoch: u64 = arena.epoch();
        self.hooks.pin(epoch, buf_id);
        let slot_id: SlotId = match self.registration.slot_for_arena(arena_idx) {
            Some(id) => id,
            None => Self::slot_missing_fallback(),
        };
        let ghost number = self.issued@;
        proof {
            self.leases = Ghost(v.leases.insert(v.next_lease(len as nat)));
            self.issued = Ghost(number + 1);
            v.leased_is_sound(len as nat);
            assert(self@ =~= v.leased(len as nat));
        }
        let ghost home = v.manager.current().id;
        Some(
            LeasedBuffer::new(
                start,
                len,
                epoch,
                buf_id,
                slot_id,
                arena_idx,
                Ghost(number),
                Ghost(home),
            ),
        )
    }

    /// The slot of an arena that has none.
    fn slot_missing_fallback() -> (r: SlotId)
        ensures
            r@ == 0,
    {
        SlotId::new(0)
    }

    /// Lease `len` bytes, auto-rotating if the current arena is full.
    ///
    /// Tries to lease from the current arena. If full, rotates to a new epoch
    /// and retries. Returns an error if rotation fails or the new arena is also
    /// too small.
    pub fn lease_or_rotate(&mut self, len: usize) -> (r: Result<LeasedBuffer, TurbineError>)
        requires
            old(self).wf(),
            if len <= old(self)@.manager.current().available() {
                old(self)@.manager.current().acquired < usize::MAX
            } else {
                old(self)@.can_turn()
            },
        ensures
            final(self).wf(),
            final(self).source() == old(self).source(),
            final(self).hooks() == old(self).hooks(),
            if len <= old(self)@.manager.current().available() {
                &&& r matches Ok(buf)
                &&& is_next(old(self)@, len, buf)
                &&& final(self)@ == old(self)@.leased(len as nat)
            } else {
                lease_rotates(old(self)@, final(self)@, old(self).source(), len, r)
            },
    {
        match self.lease(len) {
            Some(buf) => {
                return Ok(buf);
            },
            None => {},
        }
        match self.rotate() {
            Ok(_) => {},
            Err(e) => {
                proof {
                    assert(pool_rotates(
                        old(self)@,
                        self@,
                        old(self).source(),
                        Err::<(), TurbineError>(e),
                    ));
                }
                return Err(e);
            },
        }
        let ghost mid = self@;
        proof {
            assert(pool_rotates(old(self)@, mid, old(self).source(), Ok::<(), TurbineError>(())));
            old(self)@.rotation_starts_fresh(mid, old(self).source());
        }
        match self.lease(len) {
            Some(buf) => Ok(buf),
            None => {
                let available: usize = self.available();
                Err(TurbineError::ArenaFull { requested: len, available })
            },
        }
    }

    /// Rotate to a new epoch: retire the current arena and activate the next.
    pub fn rotate(&mut self) -> (r: Result<(), TurbineError>)
        requires
            old(self).wf(),
            old(self)@.can_turn(),
        ensures
            final(self).wf(),
            final(self).source() == old(self).source(),
            final(self).hooks() == old(self).hooks(),
            pool_rotates(old(self)@, final(self)@, old(self).source(), r),
    {
        let ghost v = self@;
        let result = match self.manager.rotate() {
            Ok(result) => result,
            Err(e) => {
                proof {
                    assert(self@ =~= v);
                }
                return Err(e);
            },
        };
        self.hooks.rotate(result.retired_epoch, result.new_epoch);
        match result.new_arena_idx {
            Some(new_idx) => {
                proof {
                    assert(self@.manager.live(new_idx@));
                }
                // Without a slot the arena is served unregistered.
                let _ = self.registration.register_arena(new_idx);
                self.hooks.arena_alloc(new_idx);
                proof {
                    let region = choose|region: Region|
                        crate::epoch::manager::is_mapped(
                            old(self).source(),
                            v.manager.arena_size,
                            region.bytes,
                        ) && region.bytes.len() == v.manager.arena_size && self@.manager == (
                        #[trigger] v.manager.grown(region)).activated(v.manager.gap());
                    assert(v.manager.gap() < usize::MAX);
                    v.extended_is_sound(region);
                    assert(self@ =~= v.extended(region));
                }
            },
            None => {
                proof {
                    v.reused_is_sound();
                    assert(self@ =~= v.reused());
                }
            },
        }
        Ok(())
    }

    /// Collect all draining arenas with zero leases back to the free pool.
    ///
    /// Returns the number of arenas collected.
    pub fn collect(&mut self) -> (r: usize)
        requires
            old(self).wf(),
        ensures
            final(self).wf(),
            final(self).source() == old(self).source(),
            final(self).hooks() == old(self).hooks(),
            final(self)@ == old(self)@.collected(),
            r == old(self)@.manager.swept().len(),
    {
        let ghost v = self@;
        let collected: usize = self.manager.collect();
        self.hooks.sweep(collected);
        proof {
            v.collected_is_sound();
            assert(self@ =~= v.collected());
        }
        collected
    }

    /// Try to collect (reclaim) the arena that served `epoch`.
    ///
    /// Succeeds if all leases for that epoch have been returned.
    pub fn collect_epoch(&mut self, epoch: u64) -> (r: Result<(), TurbineError>)
        requires
            old(self).wf(),
        ensures
            final(self).wf(),
            final(self).source() == old(self).source(),
            final(self).hooks() == old(self).hooks(),
            ({
                let i = old(self)@.manager.serving(epoch);
                if i == old(self)@.manager.slab.len() {
                    &&& r == Err::<(), TurbineError>(TurbineError::EpochNotFound(epoch))
                    &&& final(self)@ == old(self)@
                } else if old(self)@.manager.arena(i).outstanding() > 0 {
                    &&& r == Err::<(), TurbineError>(
                        TurbineError::EpochNotCollectable(
                            epoch,
                            old(self)@.manager.arena(i).outstanding() as usize,
                        ),
                    )
                    &&& final(self)@ == old(self)@
                } else {
                    &&& r is Ok
                    &&& final(self)@ == old(self)@.reclaimed(i, epoch)
                }
            }),
            pool_reclaims(old(self)@, final(self)@, epoch, r),
            r is Ok ==> exists|i: int|
                0 <= i < old(self)@.manager.slab.len() && (
                #[trigger] old(self)@.manager.slab[i]) is Some
                    && old(self)@.manager.slab[i]->0.epoch == epoch
                    && final(self)@.manager.slab[i] is Some
                    && final(self)@.manager.slab[i]->0.state == ArenaState::Collected,
    {
        let ghost v = self@;
        let idx: ArenaIdx = match self.manager.find_epoch(epoch) {
            Some(idx) => idx,
            None => {
                return Err(TurbineError::EpochNotFound(epoch));
            },
        };
        proof {
            v.manager.serving_is_first(0, epoch);
            assert(v.manager.live(idx@));
            assert(v.manager.arena(idx@).wf());
        }
        let arena: &mut Arena = self.manager.arena_at_mut(idx).unwrap();
        if arena.lease_count() > 0 {
            let leases: usize = arena.lease_count();
            proof {
                assert(arena@ == v.manager.arena(idx@));
            }
            return Err(TurbineError::EpochNotCollectable(epoch, leases));
        }
        arena.set_state(ArenaState::Collected);
        self.hooks.collect(epoch);
        proof {
            v.reclaiming_is_sound(idx@, epoch);
            assert(self@ =~= v.reclaimed(idx@, epoch));
        }
        Ok(())
    }

    /// Shrink the free pool: the memory of excess arenas beyond
    /// `max_free_arenas` is queued to be unmapped.
    ///
    /// Returns the number of arenas freed.
    pub fn shrink(&mut self) -> (r: usize)
        requires
            old(self).wf(),
        ensures
            final(self).wf(),
            final(self).source() == old(self).source(),
            final(self).hooks() == old(self).hooks(),
            final(self)@ == old(self)@.shrunk(),
            r == old(self)@.manager.excess(),
            r == if old(self)@.manager.free.len() > old(self)@.manager.max_free {
                old(self)@.manager.free.len() - old(self)@.manager.max_free
            } else {
                0
            },
    {
        let ghost v = self@;
        let removed: Vec<ArenaIdx> = self.manager.shrink_listed();
        let ghost told = v.manager.dropped().map_values(
            |i: int| crate::gc::HookCall::ArenaFree { arena: i },
        );
        proof {
            v.shrunk_is_sound();
            assert(crate::epoch::model::indices(removed@).len() == removed@.len());
            assert(v.calls + told.take(0) =~= v.calls);
        }
        let mut k: usize = 0;
        while k < removed.len()
            invariant
                k <= removed@.len(),
                crate::epoch::model::indices(removed@) == v.manager.dropped(),
                removed@.len() == v.manager.excess(),
                told == v.manager.dropped().map_values(
                    |i: int| crate::gc::HookCall::ArenaFree { arena: i },
                ),
                self@ == (PoolView {
                    manager: v.manager.shrunk(),
                    calls: v.calls + told.take(k as int),
                    ..v
                }),
                self.source() == old(self).source(),
                self.hooks() == old(self).hooks(),
                self.parts_wf(),
            decreases removed@.len() - k,
        {
            let idx: ArenaIdx = removed[k];
            self.hooks.arena_free(idx);
            proof {
                assert(crate::epoch::model::indices(removed@)[k as int] == idx@);
                assert(told.take(k + 1) =~= told.take(k as int).push(told[k as int]));
                assert(self@.calls =~= v.calls + told.take(k + 1));
            }
            k = k + 1;
        }
        proof {
            assert(told.take(k as int) =~= told);
            assert(self@ =~= v.shrunk());
        }
        removed.len()
    }

    /// Prepare the registration of all live arenas as io_uring fixed buffers.
    ///
    /// Gives each of them a slot, in slab order, and returns for each slot which
    /// arena the ring is to be told about there. What the ring says goes to
    /// [`IouringBufferPool::finish_register`].
    pub fn register(&mut self) -> (r: Result<Vec<Option<ArenaIdx>>, TurbineError>)
        requires
            old(self).wf(),
        ensures
            final(self).wf(),
            final(self).source() == old(self).source(),
            final(self).hooks() == old(self).hooks(),
            final(self)@ == (PoolView {
                reg: old(self)@.reg.placed_all(old(self)@.manager.live_from(0)),
                ..old(self)@
            }),
            final(self)@.reg.generation == old(self)@.reg.generation,
            final(self)@.reg.registered == old(self)@.reg.registered,
            final(self)@.reg.slots.capacity == old(self)@.reg.slots.capacity,
            if old(self)@.manager.live_from(0).len() <= old(self)@.reg.slots.room() {
                &&& r matches Ok(table)
                &&& crate::ring::registration::slot_table(table@) == old(self)@.reg.table_of(
                    old(self)@.manager.live_from(0),
                    crate::ring::registration::empty_table(old(self)@.reg.slots.capacity),
                )
            } else {
                &&& r matches Err(TurbineError::NoRegistrationSlot(idx))
                &&& idx@ == old(self)@.manager.live_from(0)[old(self)@.reg.slots.room()]
            },
            pool_registers(old(self)@, final(self)@, r),
    {
        let ghost v = self@;
        let arenas: Vec<ArenaIdx> = self.live_indices();
        proof {
            v.reg.slots.room_counts();
        }
        let r = self.registration.register(&arenas);
        proof {
            v.registration_is_separate(self@.reg);
            assert(self@ =~= (PoolView { reg: self@.reg, ..v }));
        }
        r
    }

    /// The slab indices of all live arenas, in slab order.
    fn live_indices(&self) -> (r: Vec<ArenaIdx>)
        requires
            self.wf(),
        ensures
            crate::epoch::model::indices(r@) == self@.manager.live_from(0),
            forall|k: int| 0 <= k < r@.len() ==> (#[trigger] r@[k])@ < usize::MAX,
    {
        let ghost list = self@.manager.live_from(0);
        let live = self.manager.live_arenas();
        let mut out: Vec<ArenaIdx> = Vec::with_capacity(live.len());
        let mut k: usize = 0;
        proof {
            self@.manager.live_list_is_exact(0);
        }
        while k < live.len()
            invariant
                self@.manager.slab.len() <= usize::MAX,
                list == self@.manager.live_from(0),
                live@.len() == list.len(),
                forall|j: int| 0 <= j < live@.len() ==> (#[trigger] live@[j]).0@ == list[j],
                forall|i: int| #[trigger] list.contains(i) <==> 0 <= i && self@.manager.live(i),
                k <= live@.len(),
                out@.len() == k,
                forall|j: int|
                    0 <= j < k ==> (#[trigger] out@[j])@ == list[j] && out@[j]@ < usize::MAX,
            decreases live@.len() - k,
        {
            let idx: ArenaIdx = live[k].0;
            proof {
                assert(list.contains(list[k as int]));
                assert(self@.manager.live(idx@));
            }
            out.push(idx);
            k = k + 1;
        }
        proof {
            assert(crate::epoch::model::indices(out@) =~= list);
        }
        out
    }

    /// The memory that the ring is to be told about at each slot of a table.
    pub fn iovecs(&self, table: &Vec<Option<ArenaIdx>>) -> (r: Vec<Option<&[u8]>>)
        ensures
            r@.len() == table@.len(),
            forall|s: int|
                0 <= s < r@.len() ==> match #[trigger] table@[s] {
                    Some(idx) => if self@.manager.live(idx@) {
                        r@[s] matches Some(bytes) && bytes@ == self@.manager.arena(idx@).bytes
                    } else {
                        r@[s] is None
                    },
                    None => r@[s] is None,
                },
    {
        let mut out: Vec<Option<&[u8]>> = Vec::with_capacity(table.len());
        let mut s: usize = 0;
        while s < table.len()
            invariant
                s <= table@.len(),
                out@.len() == s,
                forall|t: int|
                    0 <= t < s ==> match #[trigger] table@[t] {
                        Some(idx) => if self@.manager.live(idx@) {
                            out@[t] matches Some(bytes) && bytes@ == self@.manager.arena(
                                idx@,
                            ).bytes
                        } else {
                            out@[t] is None
                        },
                        None => out@[t] is None,
                    },
            decreases table@.len() - s,
        {
            let entry: Option<&[u8]> = match table[s] {
                Some(idx) => match self.manager.arena_at(idx) {
                    Some(arena) => Some(arena.as_iovec()),
                    None => None,
                },
                None => None,
            };
            out.push(entry);
            s = s + 1;
        }
        out
    }

    /// Complete a registration with what the ring said about it.
    pub fn finish_register(&mut self, outcome: Result<(), OsError>) -> (r: Result<
        (),
        TurbineError,
    >)
        requires
            old(self).wf(),
            outcome is Ok ==> old(self)@.reg.generation < u64::MAX,
        ensures
            final(self).wf(),
            final(self).source() == old(self).source(),
            final(self).hooks() == old(self).hooks(),
            match outcome {
                Ok(_) => {
                    &&& r is Ok
                    &&& final(self)@ == (PoolView {
                        reg: (RegistrationView { registered: true, ..old(self)@.reg }).next(),
                        ..old(self)@
                    })
                },
                Err(e) => {
                    &&& r == Err::<(), TurbineError>(TurbineError::Registration(e))
                    &&& final(self)@ == old(self)@
                },
            },
            pool_finishes(old(self)@, final(self)@, outcome, r),
    {
        let ghost v = self@;
        let r = self.registration.finish_register(outcome);
        proof {
            v.registration_is_separate(self@.reg);
            assert(self@ =~= (PoolView { reg: self@.reg, ..v }));
        }
        r
    }

    /// Unregister io_uring fixed buffers, given what the ring said when it was
    /// asked to forget them. It need not be asked if they are not registered.
    pub fn unregister(&mut self, outcome: Result<(), OsError>) -> (r: Result<(), TurbineError>)
        requires
            old(self).wf(),
            old(self)@.reg.registered && outcome is Ok ==> old(self)@.reg.generation < u64::MAX,
        ensures
            final(self).wf(),
            final(self).source() == old(self).source(),
            final(self).hooks() == old(self).hooks(),
            if !old(self)@.reg.registered {
                r is Ok && final(self)@ == old(self)@
            } else {
                match outcome {
                    Ok(_) => {
                        &&& r is Ok
                        &&& final(self)@ == (PoolView {
                            reg: (RegistrationView {
                                registered: false,
                                ..old(self)@.reg
                            }).cleared().next(),
                            ..old(self)@
                        })
                    },
                    Err(e) => {
                        &&& r == Err::<(), TurbineError>(TurbineError::Registration(e))
                        &&& final(self)@ == old(self)@
                    },
                }
            },
            pool_unregisters(old(self)@, final(self)@, outcome, r),
    {
        let ghost v = self@;
        let r = self.registration.unregister(outcome);
        proof {
            v.registration_is_separate(self@.reg);
            assert(self@ =~= (PoolView { reg: self@.reg, ..v }));
        }
        r
    }

    /// Pre-populate arena slot mappings without io_uring registration.
    ///
    /// Gives a slot to every live arena that has none, in slab order, as far as
    /// slots are left.
    pub fn pre_register_slots(&mut self)
        requires
            old(self).wf(),
            old(self)@.reg.generation + old(self)@.reg.pre_places(old(self)@.manager.live_from(0))
                <= u64::MAX,
        ensures
            final(self).wf(),
            final(self).source() == old(self).source(),
            final(self).hooks() == old(self).hooks(),
            final(self)@ == (PoolView {
                reg: old(self)@.reg.pre_placed_all(old(self)@.manager.live_from(0)),
                ..old(self)@
            }),
    {
        let ghost v = self@;
        let ghost all = v.manager.live_from(0);
        let arenas: Vec<ArenaIdx> = self.live_indices();
        let mut k: usize = 0;
        proof {
            assert(all.skip(0) =~= all);
        }
        while k < arenas.len()
            invariant
                all == crate::epoch::model::indices(arenas@),
                forall|j: int| 0 <= j < arenas@.len() ==> (#[trigger] arenas@[j])@ < usize::MAX,
                k <= arenas@.len(),
                self@ == (PoolView { reg: self@.reg, ..v }),
                self@.reg.wf(),
                self@.reg.generation + self@.reg.pre_places(all.skip(k as int)) <= u64::MAX,
                self@.reg.pre_placed_all(all.skip(k as int)) == v.reg.pre_placed_all(all),
                self.source() == old(self).source(),
                self.hooks() == old(self).hooks(),
                self.parts_wf(),
            decreases arenas@.len() - k,
        {
            let idx: ArenaIdx = arenas[k];
            let ghost mid = self@.reg;
            let ghost rest = all.skip(k as int);
            proof {
                assert(rest[0] == idx@);
                assert(rest.drop_first() =~= all.skip(k + 1));
                ArenaIdx::view_in_range(idx);
                mid.pre_placed_is_sound(idx@);
                mid.placing_helps(idx@, rest.drop_first());
                mid.slots.room_counts();
            }
            if self.registration.slot_for_arena(idx).is_none() {
                let _ = self.registration.register_arena(idx);
            }
            proof {
                assert(self@ =~= (PoolView { reg: self@.reg, ..v }));
            }
            k = k + 1;
        }
        proof {
            assert(all.skip(k as int).len() == 0);
            v.registration_is_separate(self@.reg);
        }
    }

    /// Read a leased buffer.
    pub fn contents(&self, buf: &LeasedBuffer) -> (r: &[u8])
        requires
            self.wf(),
            self@.leases.contains(buf.lease()),
        ensures
            r@ == self@.bytes_of(buf.lease()),
            r@.len() == buf.lease().len,
    {
        proof {
            assert(self@.valid(buf.lease()));
            assert(self@.manager.arena(buf.lease().arena).wf());
        }
        buf.as_slice(self.manager.arena_at(buf.arena_idx()).unwrap())
    }

    /// Write a leased buffer. What is written there is what a later read gives
    /// back; nothing else changes.
    pub fn contents_mut(&mut self, buf: &mut LeasedBuffer) -> (r: &mut [u8])
        requires
            old(self).wf(),
            old(self)@.leases.contains(old(buf).lease()),
        ensures
            *final(buf) == *old(buf),
            r@ == old(self)@.bytes_of(old(buf).lease()),
            r@.len() == old(buf).lease().len,
            final(r)@.len() == r@.len() ==> {
                &&& final(self).wf()
                &&& final(self).source() == old(self).source()
                &&& final(self).hooks() == old(self).hooks()
                &&& final(self)@ == old(self)@.written(old(buf).lease(), final(r)@)
            },
    {
        let ghost v = self@;
        let ghost l = buf.lease();
        proof {
            assert(v.valid(l));
            assert(v.manager.arena(l.arena).wf());
            assert forall|data: Seq<u8>| data.len() == l.len implies (#[trigger] v.written(
                l,
                data,
            )).wf() by {
                v.writing_is_sound(l, data);
            }
        }
        buf.as_mut_slice(self.manager.arena_at_mut(buf.arena_idx()).unwrap())
    }

    /// Read a buffer that was sent to another thread.
    pub fn sent_contents(&self, buf: &SendableBuffer) -> (r: &[u8])
        requires
            self.wf(),
            self@.leases.contains(buf.lease()),
        ensures
            r@ == self@.bytes_of(buf.lease()),
            r@.len() == buf.lease().len,
    {
        proof {
            assert(self@.valid(buf.lease()));
            assert(self@.manager.arena(buf.lease().arena).wf());
        }
        buf.as_slice(self.manager.arena_at(buf.arena_idx()).unwrap())
    }

    /// Give a leased buffer back.
    pub fn release(&mut self, buf: LeasedBuffer)
        requires
            old(self).wf(),
            old(self)@.leases.contains(buf.lease()),
        ensures
            final(self).wf(),
            final(self).source() == old(self).source(),
            final(self).hooks() == old(self).hooks(),
            final(self)@ == old(self)@.given_back(buf.lease()),
    {
        let ghost v = self@;
        let ghost l = buf.lease();
        proof {
            v.giving_back_is_sound(l);
        }
        let arena: &mut Arena = self.manager.arena_at_mut(buf.arena_idx()).unwrap();
        buf.release(arena);
        proof {
            self.leases = Ghost(v.leases.remove(l));
            assert(self@ =~= v.given_back(l));
        }
    }

    /// Account for a buffer that another thread gave back.
    pub fn release_sent(&mut self, buf: SendableBuffer)
        requires
            old(self).wf(),
            old(self)@.leases.contains(buf.lease()),
        ensures
            final(self).wf(),
            final(self).source() == old(self).source(),
            final(self).hooks() == old(self).hooks(),
            final(self)@ == old(self)@.returned(buf.lease()),
    {
        let ghost v = self@;
        let ghost l = buf.lease();
        proof {
            v.giving_back_is_sound(l);
        }
        let arena: &mut Arena = self.manager.arena_at_mut(buf.arena_idx()).unwrap();
        buf.release(arena);
        proof {
            self.leases = Ghost(v.leases.remove(l));
            assert(self@ =~= v.returned(l));
        }
    }

    /// The pages that sweeps found idle since the last call, for the kernel to
    /// take back, each with the arena it belongs to. Pages that their arena has
    /// put to use again in the meantime are left out, so no lease reaches into
    /// what comes out.
    pub fn take_advice(&mut self) -> (r: Vec<(ArenaIdx, PageRange)>)
        requires
            old(self).wf(),
        ensures
            final(self).wf(),
            final(self).source() == old(self).source(),
            final(self).hooks() == old(self).hooks(),
            final(self)@ == (PoolView {
                manager: ManagerView { advice: Seq::empty(), ..old(self)@.manager },
                ..old(self)@
            }),
            crate::epoch::manager::advice_view(r@) == old(self)@.manager.due_advice(),
            forall|k: int|
                0 <= k < r@.len() ==> final(self)@.manager.names_end(
                    ((#[trigger] r@[k]).0@, r@[k].1),
                ),
            forall|k: int, l: Lease|
                0 <= k < r@.len() && #[trigger] final(self)@.leases.contains(l) && l.arena == (
                #[trigger] r@[k]).0@ ==> l.end() <= r@[k].1.start,
    {
        let ghost v = self@;
        let r = self.manager.take_advice();
        proof {
            v.mailboxes_do_not_matter(self@.manager);
            assert(self@ =~= (PoolView { manager: self@.manager, ..v }));
            assert forall|k: int, l: Lease|
                0 <= k < r@.len() && #[trigger] self@.leases.contains(l) && l.arena == (
                #[trigger] r@[k]).0@ implies l.end() <= r@[k].1.start by {
                assert(self@.manager.untouched((r@[k].0@, r@[k].1)));
                assert(self@.valid(l));
            }
        }
        r
    }

    /// The memory to be unmapped since the last call.
    pub fn take_unmapped(&mut self) -> (r: Vec<&'static mut [u8]>)
        requires
            old(self).wf(),
        ensures
            final(self).wf(),
            final(self).source() == old(self).source(),
            final(self).hooks() == old(self).hooks(),
            final(self)@ == (PoolView {
                manager: ManagerView { unmapped: Seq::empty(), ..old(self)@.manager },
                ..old(self)@
            }),
            crate::epoch::manager::regions_view(r@) == old(self)@.manager.unmapped,
    {
        let ghost v = self@;
        let r = self.manager.take_unmapped();
        proof {
            v.mailboxes_do_not_matter(self@.manager);
            assert(self@ =~= (PoolView { manager: self@.manager, ..v }));
        }
        r
    }

    /// Ends the pool: the memory of every live arena, in slab order, to be
    /// unmapped, each with the number of leases that were still out, and then the
    /// memory that was to be unmapped already.
    pub fn close(self) -> (r: Vec<(&'static mut [u8], usize)>)
        requires
            self.wf(),
        ensures
            r@.len() == self@.manager.regions(),
            self@.manager.live_from(0).len() == self@.manager.live_count(),
            forall|k: int|
                0 <= k < self@.manager.live_count() ==> (#[trigger] r@[k]).0@
                    == self@.manager.arena(self@.manager.live_from(0)[k]).bytes && r@[k].1
                    == self@.at(self@.manager.live_from(0)[k]).len(),
            forall|k: int|
                self@.manager.live_count() <= k < r@.len() ==> (#[trigger] r@[k]).0@
                    == self@.manager.unmapped[k - self@.manager.live_count()] && r@[k].1 == 0,
    {
        proof {
            let list = self@.manager.live_from(0);
            self@.manager.live_list_is_exact(0);
            assert forall|k: int| 0 <= k < list.len() implies self@.manager.live(
                #[trigger] list[k],
            ) by {
                assert(list.contains(list[k]));
            }
        }
        self.manager.close()
    }

    /// The current epoch number.
    pub fn epoch(&self) -> (r: u64)
        ensures
            r == self@.manager.epoch,
    {
        self.manager.epoch()
    }

    /// Bytes available in the current arena.
    pub fn available(&self) -> (r: usize)
        requires
            self.wf(),
        ensures
            r == self@.manager.current().available(),
    {
        proof {
            assert(self@.manager.live(self@.manager.write));
        }
        self.manager.current_arena().available()
    }

    /// Number of arenas in the drain queue.
    pub fn draining_count(&self) -> (r: usize)
        ensures
            r == self@.manager.draining.len(),
    {
        self.manager.draining_count()
    }
}

/// What a lease that does not fit the current arena does, and what it answers.
pub open spec fn lease_rotates<F>(
    before: PoolView,
    after: PoolView,
    source: F,
    len: usize,
    r: Result<LeasedBuffer, TurbineError>,
) -> bool where F: Fn(usize) -> Result<&'static mut [u8], OsError> {
    match r {
        // The next arena takes it.
        Ok(buf) => len <= before.manager.arena_size && exists|mid: PoolView| #[trigger]
            pool_rotates(before, mid, source, Ok::<(), TurbineError>(())) && is_next(mid, len, buf)
                && after == mid.leased(len as nat),
        // It fits no arena, although there is a fresh one now.
        Err(TurbineError::ArenaFull { requested, available }) => {
            &&& requested == len
            &&& available == before.manager.arena_size
            &&& len > before.manager.arena_size
            &&& pool_rotates(before, after, source, Ok::<(), TurbineError>(()))
        },
        // There is no next arena.
        Err(e) => pool_rotates(before, after, source, Err::<(), TurbineError>(e)),
    }
}

impl PoolView {
    /// After a rotation the whole of an arena is available, and nothing is
    /// leased from it.
    pub proof fn rotation_starts_fresh<F: Fn(usize) -> Result<&'static mut [u8], OsError>>(
        self,
        after: PoolView,
        source: F,
    )
        requires
            self.wf(),
            after.wf(),
            self.manager.epoch < u64::MAX,
            pool_rotates(self, after, source, Ok::<(), TurbineError>(())),
        ensures
            after.manager.current().available() == self.manager.arena_size,
            after.manager.current().acquired == 0,
            after.manager.epoch == self.manager.epoch + 1,
    {
        assert(after.manager.live(after.manager.write));
        let mid = self.manager.ready();
        if mid.free.len() > 0 {
            self.ready_is_sound();
            assert(mid.live(mid.free[mid.free.len() - 1]));
        } else {
            self.manager.gap_is_free(0);
        }
    }
}

} // verus!
