//! Slab of arenas with a drain queue and a free pool.
use vstd::prelude::*;

use crate::config::PoolConfig;
use crate::epoch::arena::{Arena, ArenaState, ArenaView, PageRange, Region};
use crate::epoch::model::{ManagerView, COLLECT_YOUNG_EPOCHS};
use crate::error::{OsError, TurbineError};
use crate::types::ArenaIdx;

verus! {

/// Result of a rotate operation.
#[derive(Debug)]
pub struct RotateResult {
    pub retired_epoch: u64,
    pub new_epoch: u64,
    /// The slab index of a freshly mapped arena, which needs registration.
    pub new_arena_idx: Option<ArenaIdx>,
}

/// `source` maps regions of `size` bytes: it can be asked for one, and a region
/// that it hands out has that size.
pub open spec fn maps<F>(source: F, size: usize) -> bool where
    F: Fn(usize) -> Result<&'static mut [u8], OsError>,
 {
    &&& call_requires(source, (size,))
    &&& forall|region: &'static mut [u8]|
        #[trigger] call_ensures(source, (size,), Ok::<_, OsError>(region)) ==> region@.len()
            == size
}

/// `source` has handed out a region that holds `bytes`.
pub open spec fn is_mapped<F>(source: F, size: usize, bytes: Seq<u8>) -> bool where
    F: Fn(usize) -> Result<&'static mut [u8], OsError>,
 {
    exists|region: &'static mut [u8]|
        #[trigger] call_ensures(source, (size,), Ok::<_, OsError>(region)) && region@ == bytes
}

/// `source` has handed out each of `regions`.
pub open spec fn all_mapped<F>(source: F, size: usize, regions: Seq<Seq<u8>>) -> bool where
    F: Fn(usize) -> Result<&'static mut [u8], OsError>,
 {
    forall|i: int| 0 <= i < regions.len() ==> is_mapped(source, size, #[trigger] regions[i])
}

/// Why arenas could not be set up, and the memory that was mapped for them
/// before, to be unmapped.
#[derive(Debug)]
pub struct SetupFailure {
    pub error: TurbineError,
    pub mapped: Vec<&'static mut [u8]>,
}

/// Maps `count` regions of `size` bytes.
pub(crate) fn map_regions<F: Fn(usize) -> Result<&'static mut [u8], OsError>>(
    source: &F,
    size: usize,
    count: usize,
) -> (r: Result<Vec<&'static mut [u8]>, SetupFailure>)
    requires
        maps(*source, size),
    ensures
        match r {
            Ok(regions) => {
                &&& regions@.len() == count
                &&& all_mapped(*source, size, regions_view(regions@))
            },
            Err(failure) => {
                &&& failure.error matches TurbineError::Mmap(os)
                &&& call_ensures(*source, (size,), Err(os))
                &&& failure.mapped@.len() < count
                &&& all_mapped(*source, size, regions_view(failure.mapped@))
            },
        },
{
    let mut regions: Vec<&'static mut [u8]> = Vec::with_capacity(count);
    while regions.len() < count
        invariant
            maps(*source, size),
            regions@.len() <= count,
            all_mapped(*source, size, regions_view(regions@)),
        decreases count - regions@.len(),
    {
        let ghost before = regions@;
        match source(size) {
            Ok(region) => {
                let ghost bytes = region@;
                proof {
                    assert(call_ensures(*source, (size,), Ok::<_, OsError>(region)));
                    assert(is_mapped(*source, size, bytes));
                }
                regions.push(region);
                proof {
                    assert(regions_view(regions@) =~= regions_view(before).push(bytes));
                }
            },
            Err(os) => {
                return Err(SetupFailure { error: TurbineError::Mmap(os), mapped: regions });
            },
        }
    }
    Ok(regions)
}

/// Slab-based arena manager with drain queue and free pool.
///
/// Rotation never blocks on outstanding leases: retired arenas go to a drain
/// queue and are only recycled after all leases return. Memory comes from
/// `source`; memory that is no longer needed is handed out by `take_advice`
/// and `take_unmapped`, and what is left at the end by `close`. Dropping the
/// manager leaves its memory mapped.
pub struct ArenaManager<F> {
    arenas: Vec<Option<Box<Arena>>>,
    write_idx: ArenaIdx,
    draining: Vec<ArenaIdx>,
    free_pool: Vec<ArenaIdx>,
    live_count: usize,
    epoch: u64,
    arena_size: usize,
    page_size: usize,
    max_free: usize,
    max_arenas: usize,
    advice: Vec<(ArenaIdx, PageRange)>,
    unmapped: Vec<&'static mut [u8]>,
    source: F,
}

/// The views of the arenas in a slab.
pub closed spec fn slab_view(arenas: Seq<Option<Box<Arena>>>) -> Seq<Option<ArenaView>> {
    Seq::new(
        arenas.len(),
        |i: int|
            match arenas[i] {
                Some(arena) => Some(arena@),
                None => None,
            },
    )
}

/// A list of idle pages, with the arenas by their slab indices.
pub open spec fn advice_view(advice: Seq<(ArenaIdx, PageRange)>) -> Seq<(int, PageRange)> {
    advice.map_values(|a: (ArenaIdx, PageRange)| (a.0@, a.1))
}

/// What regions hold.
pub open spec fn regions_view(regions: Seq<&'static mut [u8]>) -> Seq<Seq<u8>> {
    regions.map_values(|m: &'static mut [u8]| m@)
}

/// What the regions under arenas hold.
pub open spec fn region_bytes(regions: Seq<Region>) -> Seq<Seq<u8>> {
    regions.map_values(|region: Region| region.bytes)
}

impl<F> View for ArenaManager<F> {
    type V = ManagerView;

    closed spec fn view(&self) -> ManagerView {
        ManagerView {
            slab: slab_view(self.arenas@),
            write: self.write_idx@,
            draining: crate::epoch::model::indices(self.draining@),
            free: crate::epoch::model::indices(self.free_pool@),
            epoch: self.epoch,
            arena_size: self.arena_size,
            page_size: self.page_size,
            max_free: self.max_free,
            max_arenas: self.max_arenas,
            advice: advice_view(self.advice@),
            unmapped: regions_view(self.unmapped@),
        }
    }
}

impl<F: Fn(usize) -> Result<&'static mut [u8], OsError>> ArenaManager<F> {
    /// Where memory comes from.
    pub closed spec fn source(&self) -> F {
        self.source
    }

    /// The counter of live arenas is right.
    pub closed spec fn counted(&self) -> bool {
        self.live_count == self@.live_count()
    }

    /// The manager is sound and its source maps arenas of the right size.
    pub open spec fn wf(&self) -> bool {
        &&& self@.wf()
        &&& self.counted()
        &&& maps(self.source(), self@.arena_size)
    }

    /// Create a new arena manager from the given config.
    ///
    /// Maps `initial_arenas` arenas. The first becomes the writable arena at
    /// epoch 0; the rest go into the free pool. If a mapping fails, what was
    /// mapped before it comes with the error, to be unmapped.
    pub fn new(config: &PoolConfig, source: F) -> (r: Result<Self, SetupFailure>)
        requires
            config.valid() ==> maps(source, config.arena_size),
        ensures
            !config.valid() ==> (r matches Err(failure) && failure.mapped@.len() == 0 && (
            failure.error matches TurbineError::InvalidConfig(rule) && rule@
                == config.broken_rule())),
            config.valid() ==> match r {
                Ok(manager) => {
                    &&& manager.wf()
                    &&& manager.source() == source
                    &&& manager@.arena_size == config.arena_size
                    &&& manager@.page_size == config.page_size
                    &&& manager@.max_free == config.max_free_arenas
                    &&& manager@.max_arenas == config.max_total_arenas
                    &&& exists|regions: Seq<Region>|
                        all_mapped(source, config.arena_size, region_bytes(regions))
                            && regions.len() == config.initial_arenas && manager@
                            == #[trigger] ManagerView::initial(*config, regions)
                },
                Err(failure) => {
                    &&& failure.error matches TurbineError::Mmap(os)
                    &&& call_ensures(source, (config.arena_size,), Err(os))
                    &&& failure.mapped@.len() < config.initial_arenas
                    &&& all_mapped(source, config.arena_size, regions_view(failure.mapped@))
                },
            },
    {
        match config.validate() {
            Ok(_) => {},
            Err(e) => {
                return Err(SetupFailure { error: e, mapped: Vec::new() });
            },
        }
        let mut mapped: Vec<&'static mut [u8]> = match map_regions(
            &source,
            config.arena_size,
            config.initial_arenas,
        ) {
            Ok(mapped) => mapped,
            Err(failure) => {
                return Err(failure);
            },
        };
        let ghost bytes = regions_view(mapped@);
        let ghost mut regions: Seq<Region> = Seq::empty();
        let mut arenas: Vec<Option<Box<Arena>>> = Vec::with_capacity(config.initial_arenas);
        let mut free_pool: Vec<ArenaIdx> = Vec::with_capacity(config.initial_arenas - 1);
        let mut i: usize = 0;
        while i < config.initial_arenas
            invariant
                config.valid(),
                i <= config.initial_arenas,
                bytes.len() == config.initial_arenas,
                mapped@.len() == config.initial_arenas - i,
                regions_view(mapped@) == bytes.skip(i as int),
                regions.len() == i,
                forall|j: int| 0 <= j < i ==> (#[trigger] regions[j]).bytes == bytes[j],
                arenas@.len() == i,
                forall|j: int|
                    0 <= j < i ==> (#[trigger] slab_view(arenas@)[j]) == if j == 0 {
                        Some(ArenaView::unused(regions[j]).recycled(0))
                    } else {
                        Some(ArenaView::unused(regions[j]))
                    },
                free_pool@.len() == if i == 0 {
                    0
                } else {
                    i - 1
                },
                forall|k: int| 0 <= k < free_pool@.len() ==> (#[trigger] free_pool@[k])@ == k + 1,
            decreases config.initial_arenas - i,
        {
            let ghost left = mapped@;
            let region = mapped.remove(0);
            proof {
                assert(regions_view(left)[0] == region@);
                assert(region@ == bytes[i as int]);
                assert(regions_view(mapped@) =~= bytes.skip(i as int).skip(1));
                assert(bytes.skip(i as int).skip(1) =~= bytes.skip(i + 1));
            }
            let mut arena = Arena::over(region);
            proof {
                regions = regions.push(Region { id: arena@.id, bytes: bytes[i as int] });
            }
            if i == 0 {
                arena.reset();
                arena.set_epoch(0);
            }
            let ghost before = slab_view(arenas@);
            arenas.push(Some(Box::new(arena)));
            proof {
                assert(slab_view(arenas@) =~= before.push(Some(arena@)));
            }
            if i > 0 {
                free_pool.push(ArenaIdx::new(i));
            }
            i = i + 1;
        }
        let manager = Self {
            arenas,
            write_idx: ArenaIdx::new(0),
            draining: Vec::new(),
            free_pool,
            live_count: config.initial_arenas,
            epoch: 0,
            arena_size: config.arena_size,
            page_size: config.page_size,
            max_free: config.max_free_arenas,
            max_arenas: config.max_total_arenas,
            advice: Vec::new(),
            unmapped: Vec::new(),
            source,
        };
        proof {
            assert(region_bytes(regions) =~= bytes);
            assert forall|j: int| 0 <= j < regions.len() implies (#[trigger] regions[j]).bytes.len()
                == config.arena_size by {
                assert(is_mapped(source, config.arena_size, bytes[j]));
            }
            ManagerView::initial_is_sound(*config, regions);
            assert(manager@ =~= ManagerView::initial(*config, regions));
        }
        Ok(manager)
    }

    /// Collect arenas from the drain queue whose leases are all back.
    ///
    /// Collected arenas move to the free pool, and their idle pages are queued
    /// for the kernel to take back. Returns the number of arenas collected.
    pub fn collect(&mut self) -> (r: usize)
        requires
            old(self).wf(),
        ensures
            final(self).wf(),
            final(self).source() == old(self).source(),
            final(self)@ == old(self)@.collected(),
            r == old(self)@.swept().len(),
    {
        let ghost v = self@;
        let n: usize = self.draining.len();
        let mut kept: Vec<ArenaIdx> = Vec::with_capacity(n);
        let mut collected: usize = 0;
        let mut blocked: bool = false;
        let mut j: usize = 0;
        proof {
            assert(v.draining.take(0) =~= Seq::<int>::empty());
            reveal(Seq::filter);
            reveal(Seq::filter_map);
            assert(self@.slab =~= marked(v, Seq::<int>::empty()));
            assert(self@.free =~= v.free + Seq::<int>::empty());
            assert(self@.advice =~= v.advice + Seq::<(int, PageRange)>::empty());
        }
        while j < n && !blocked
            invariant
                v == old(self)@,
                v.wf(),
                n == v.draining.len(),
                j <= n,
                blocked ==> j < n && v.blocks(v.draining[j as int]),
                v.stop_from(0) == v.stop_from(j as int),
                crate::epoch::model::indices(kept@) == v.draining.take(j as int).filter(
                    v.is_leased(),
                ),
                collected == v.draining.take(j as int).filter(v.is_idle()).len(),
                collected <= j,
                self@ == sweep_state(v, v.draining.take(j as int).filter(v.is_idle())),
                self.live_count == old(self).live_count,
                self.source == old(self).source,
            decreases n - j + if blocked {
                0int
            } else {
                1int
            },
        {
            let idx: ArenaIdx = self.draining[j];
            let at: usize = idx.as_usize();
            let ghost reached = v.draining.take(j as int);
            let ghost swept = reached.filter(v.is_idle());
            let ghost before = self.arenas@;
            let ghost before_free = self.free_pool@;
            let ghost before_advice = self.advice@;
            proof {
                assert(self@.draining[j as int] == idx@);
                assert(v.draining[j as int] == at);
                assert(v.live(v.draining[j as int]));
                crate::epoch::model::filter_is_part(reached, v.is_idle(), at as int);
                assert(!reached.contains(at as int)) by {
                    if reached.contains(at as int) {
                        let k = choose|k: int| 0 <= k < reached.len() && reached[k] == at;
                        assert(v.draining[k] == v.draining[j as int]);
                    }
                }
                assert(self@.slab[at as int] == v.slab[at as int]);
                assert(slab_view(before)[at as int] == v.slab[at as int]);
                assert(self@.slab == slab_view(before));
                assert(slab_view(before).len() == before.len());
                assert(before.len() == v.slab.len());
                assert(before[at as int] is Some && before[at as int]->0@ == v.arena(at as int));
                assert(v.arena(at as int).wf());
                assert(v.draining.take(j + 1).drop_last() =~= reached);
                assert(v.draining.take(j + 1).last() == at);
                reveal(Seq::filter);
            }
            let mut leased: bool = false;
            match &mut self.arenas[at] {
                Some(arena) => {
                    if arena.has_outstanding_leases() || arena.lease_count() > 0 {
                        leased = true;
                        blocked = arena.epoch() >= self.epoch.saturating_sub(COLLECT_YOUNG_EPOCHS);
                    } else {
                        match arena.advise_free_unused(self.page_size) {
                            Some(pages) => {
                                self.advice.push((idx, pages));
                            },
                            None => {},
                        }
                        arena.set_state(ArenaState::Collected);
                    }
                },
                None => {},
            }
            if leased {
                proof {
                    assert(self.arenas@ =~= before);
                }
                if !blocked {
                    kept.push(idx);
                    proof {
                        assert(crate::epoch::model::indices(kept@) =~= v.draining.take(
                            j + 1,
                        ).filter(v.is_leased()));
                    }
                    j = j + 1;
                }
            } else {
                self.free_pool.push(idx);
                collected = collected + 1;
                proof {
                    let more = swept.push(at as int);
                    assert(v.draining.take(j + 1).filter(v.is_idle()) == more);
                    assert(more.drop_last() =~= swept);
                    assert(more.filter_map(v.advice_fn()) == match v.advice_at(at as int) {
                        Some(a) => swept.filter_map(v.advice_fn()).push(a),
                        None => swept.filter_map(v.advice_fn()),
                    }) by {
                        reveal(Seq::filter_map);
                    }
                    assert(self@.slab =~= marked(v, more)) by {
                        assert forall|i: int| 0 <= i < v.slab.len() implies self@.slab[i] == marked(
                            v,
                            more,
                        )[i] by {
                            assert(slab_view(before)[i] == marked(v, swept)[i]);
                            if i != at {
                                assert(self.arenas@[i] == before[i]);
                                if swept.contains(i) {
                                    let k = choose|k: int| 0 <= k < swept.len() && swept[k] == i;
                                    assert(more[k] == i);
                                }
                            } else {
                                assert(more[swept.len() as int] == i);
                            }
                        }
                    }
                    assert(self@.free =~= crate::epoch::model::indices(before_free).push(at as int));
                    assert(self@.free =~= v.free + more);
                    let told = advice_view(before_advice);
                    assert(told == v.advice + swept.filter_map(v.advice_fn()));
                    assert(self@.advice =~= match v.advice_at(at as int) {
                        Some(a) => told.push(a),
                        None => told,
                    });
                    assert(self@.advice =~= v.advice + more.filter_map(v.advice_fn()));
                    assert(self@ =~= sweep_state(v, more));
                }
                j = j + 1;
            }
        }
        let ghost stop = j as int;
        proof {
            assert(stop == v.stop_from(0));
            assert(v.draining.subrange(stop, stop) =~= Seq::<int>::empty());
            assert(crate::epoch::model::indices(kept@) =~= v.reached().filter(v.is_leased())
                + v.draining.subrange(stop, stop));
        }
        while j < n
            invariant
                v == old(self)@,
                n == v.draining.len(),
                0 <= stop <= j <= n,
                stop == v.stop_from(0),
                self@ == sweep_state(v, v.swept()),
                self.live_count == old(self).live_count,
                self.source == old(self).source,
                crate::epoch::model::indices(kept@) == v.reached().filter(v.is_leased())
                    + v.draining.subrange(stop, j as int),
            decreases n - j,
        {
            let idx: ArenaIdx = self.draining[j];
            let ghost before = kept@;
            proof {
                assert(self@.draining[j as int] == idx@);
                assert(v.draining[j as int] == idx@);
            }
            kept.push(idx);
            proof {
                assert(crate::epoch::model::indices(kept@) =~= crate::epoch::model::indices(
                    before,
                ).push(idx@));
                assert(v.draining.subrange(stop, j + 1) =~= v.draining.subrange(
                    stop,
                    j as int,
                ).push(idx@));
                assert(crate::epoch::model::indices(kept@) =~= v.reached().filter(v.is_leased())
                    + v.draining.subrange(stop, j + 1));
            }
            j = j + 1;
        }
        self.draining = kept;
        proof {
            assert(v.draining.subrange(stop, n as int) =~= v.draining.skip(stop));
            assert(self@ =~= v.collected());
            v.collected_is_sound();
        }
        collected
    }

    /// Rotate the current epoch. The current arena is retired and a new one
    /// becomes writable.
    ///
    /// This never fails due to outstanding leases: retired arenas move to the
    /// drain queue and are recycled later. The next arena is secured before the
    /// current one is retired, so a failed rotation changes nothing.
    pub fn rotate(&mut self) -> (r: Result<RotateResult, TurbineError>)
        requires
            old(self).wf(),
            old(self)@.epoch < u64::MAX,
        ensures
            final(self).wf(),
            final(self).source() == old(self).source(),
            rotates(old(self)@, final(self)@, old(self).source(), r),
    {
        let ghost v = self@;
        let retired_epoch: u64 = self.epoch;
        match self.pop_free() {
            Some(idx) => {
                proof {
                    v.reuse_is_sound();
                }
                self.activate(idx);
                return Ok(
                    RotateResult { retired_epoch, new_epoch: retired_epoch + 1, new_arena_idx: None },
                );
            },
            None => {},
        }
        // Sweep draining arenas first to avoid unnecessary growth.
        self.collect();
        let ghost mid = self@;
        match self.pop_free() {
            Some(idx) => {
                proof {
                    mid.reuse_is_sound();
                }
                self.activate(idx);
                return Ok(
                    RotateResult { retired_epoch, new_epoch: retired_epoch + 1, new_arena_idx: None },
                );
            },
            None => {},
        }
        proof {
            assert(v.swept().len() == 0) by {
                assert(mid.free == v.free + v.swept());
            }
            v.empty_sweep_is_identity();
            v.gap_is_free(0);
            assert(self@ == v);
        }
        match self.alloc_arena() {
            Ok(idx) => {
                proof {
                    let region = choose|region: Region|
                        is_mapped(old(self).source(), v.arena_size, region.bytes)
                            && region.bytes.len() == v.arena_size && self@ == #[trigger] v.grown(
                            region,
                        );
                    v.growth_is_sound(region);
                }
                self.activate(idx);
                Ok(
                    RotateResult {
                        retired_epoch,
                        new_epoch: retired_epoch + 1,
                        new_arena_idx: Some(idx),
                    },
                )
            },
            Err(e) => Err(e),
        }
    }

    /// Takes the last arena out of the free pool.
    fn pop_free(&mut self) -> (r: Option<ArenaIdx>)
        ensures
            final(self).live_count == old(self).live_count,
            final(self).source == old(self).source,
            match r {
                Some(idx) => {
                    &&& old(self)@.free.len() > 0
                    &&& idx@ == old(self)@.free.last()
                    &&& final(self)@ == old(self)@.popped()
                },
                None => old(self)@.free.len() == 0 && final(self)@ == old(self)@,
            },
    {
        let r = self.free_pool.pop();
        proof {
            if old(self).free_pool@.len() > 0 {
                assert(self@.free =~= old(self)@.free.drop_last());
                assert(self@ =~= old(self)@.popped());
            }
        }
        r
    }

    /// Retires the written arena and makes the one at `next` writable for the
    /// next epoch.
    fn activate(&mut self, next: ArenaIdx)
        requires
            old(self)@.live(old(self)@.write),
            old(self)@.live(next@),
            next@ != old(self)@.write,
            old(self)@.arena(next@).wf(),
            old(self)@.epoch < u64::MAX,
        ensures
            final(self).live_count == old(self).live_count,
            final(self).source == old(self).source,
            final(self)@ == old(self)@.activated(next@),
    {
        let ghost v = self@;
        let ghost before = self.arenas@;
        let epoch: u64 = self.epoch + 1;
        let from: usize = self.write_idx.as_usize();
        let to: usize = next.as_usize();
        proof {
            assert(slab_view(before).len() == before.len());
            assert(slab_view(before)[from as int] == v.slab[from as int]);
            assert(slab_view(before)[to as int] == v.slab[to as int]);
        }
        match &mut self.arenas[from] {
            Some(current) => {
                current.set_state(ArenaState::Retired);
            },
            None => {},
        }
        proof {
            assert(slab_view(self.arenas@) =~= v.slab.update(
                v.write,
                Some(ArenaView { state: ArenaState::Retired, ..v.current() }),
            ));
        }
        let ghost mid = self.arenas@;
        self.draining.push(self.write_idx);
        match &mut self.arenas[to] {
            Some(arena) => {
                arena.reset();
                arena.set_epoch(epoch);
            },
            None => {},
        }
        proof {
            assert(slab_view(self.arenas@) =~= slab_view(mid).update(
                to as int,
                Some(v.arena(next@).recycled(epoch)),
            ));
        }
        self.write_idx = next;
        self.epoch = epoch;
        proof {
            assert(self@.draining =~= v.draining.push(v.write));
            assert(self@ =~= v.activated(next@));
        }
    }

    /// Takes back the advice about an arena which goes.
    fn forget_advice(&mut self, idx: ArenaIdx)
        ensures
            final(self).live_count == old(self).live_count,
            final(self).source == old(self).source,
            final(self)@ == (ManagerView {
                advice: old(self)@.advice.filter(ManagerView::not_about(idx@)),
                ..old(self)@
            }),
    {
        let ghost v = self@;
        let ghost other = ManagerView::not_about(idx@);
        let mut kept: Vec<(ArenaIdx, PageRange)> = Vec::new();
        let mut k: usize = 0;
        proof {
            reveal(Seq::filter);
            assert(advice_view(kept@) =~= v.advice.take(0).filter(other));
        }
        while k < self.advice.len()
            invariant
                self@ == v,
                self.live_count == old(self).live_count,
                self.source == old(self).source,
                v.advice == advice_view(self.advice@),
                other == ManagerView::not_about(idx@),
                k <= self.advice@.len(),
                advice_view(kept@) == v.advice.take(k as int).filter(other),
            decreases self.advice@.len() - k,
        {
            let entry: (ArenaIdx, PageRange) = self.advice[k];
            let ghost before = kept@;
            proof {
                reveal(Seq::filter);
                assert(v.advice[k as int] == (entry.0@, entry.1));
                assert(v.advice.take(k + 1).drop_last() =~= v.advice.take(k as int));
                assert(v.advice.take(k + 1).last() == v.advice[k as int]);
            }
            if entry.0.as_usize() != idx.as_usize() {
                kept.push(entry);
                proof {
                    assert(advice_view(kept@) =~= advice_view(before).push((entry.0@, entry.1)));
                }
            }
            k = k + 1;
        }
        self.advice = kept;
        proof {
            assert(v.advice.take(k as int) =~= v.advice);
            assert(self@ =~= (ManagerView { advice: v.advice.filter(other), ..v }));
        }
    }

    /// Maps a new arena and inserts it into the slab.
    ///
    /// Returns the slab index. Fails if `max_total_arenas` would be exceeded.
    fn alloc_arena(&mut self) -> (r: Result<ArenaIdx, TurbineError>)
        requires
            old(self).wf(),
        ensures
            final(self).source == old(self).source,
            if old(self)@.at_limit() {
                &&& r matches Err(TurbineError::ArenaLimitExceeded { current, max })
                &&& current == old(self)@.live_count()
                &&& max == old(self)@.max_arenas
                &&& *final(self) == *old(self)
            } else {
                match r {
                    Ok(idx) => {
                        &&& idx@ == old(self)@.gap()
                        &&& idx@ < usize::MAX
                        &&& final(self).live_count == old(self).live_count + 1
                        &&& exists|region: Region|
                            is_mapped(old(self).source(), old(self)@.arena_size, region.bytes)
                                && region.bytes.len() == old(self)@.arena_size && final(self)@
                                == #[trigger] old(self)@.grown(region)
                    },
                    Err(e) => {
                        &&& e matches TurbineError::Mmap(os)
                        &&& call_ensures(old(self).source(), (old(self)@.arena_size,), Err(os))
                        &&& *final(self) == *old(self)
                    },
                }
            },
    {
        let ghost v = self@;
        if self.max_arenas > 0 && self.live_count >= self.max_arenas {
            return Err(
                TurbineError::ArenaLimitExceeded { current: self.live_count, max: self.max_arenas },
            );
        }
        let mapped = (self.source)(self.arena_size);
        let ghost ok = mapped is Ok;
        let ghost bytes = if ok {
            mapped->Ok_0@
        } else {
            Seq::empty()
        };
        proof {
            if ok {
                assert(call_ensures(
                    self.source,
                    (self.arena_size,),
                    Ok::<_, OsError>(mapped->Ok_0),
                ));
                assert(is_mapped(self.source, self.arena_size, bytes));
            }
        }
        let arena = match Arena::new(mapped) {
            Ok(arena) => arena,
            Err(e) => {
                return Err(e);
            },
        };
        let ghost region = Region { id: arena@.id, bytes };
        let mut gap: usize = 0;
        proof {
            assert(v.slab.len() == self.arenas@.len());
            v.live_arenas_fit();
            v.gap_is_free(0);
        }
        while gap < self.arenas.len() && self.arenas[gap].is_some()
            invariant
                v == self@,
                v.slab.len() == self.arenas@.len(),
                gap <= self.arenas@.len(),
                v.gap() == v.gap_from(gap as int),
            decreases self.arenas@.len() - gap,
        {
            proof {
                assert(v.slab[gap as int] == slab_view(self.arenas@)[gap as int]);
            }
            gap = gap + 1;
        }
        proof {
            if gap < self.arenas@.len() {
                assert(v.slab[gap as int] == slab_view(self.arenas@)[gap as int]);
            }
            assert(gap == v.gap());
        }
        let ghost before = self.arenas@;
        if gap < self.arenas.len() {
            self.arenas[gap] = Some(Box::new(arena));
            proof {
                assert(slab_view(self.arenas@) =~= v.slab.update(gap as int, Some(arena@)));
            }
        } else {
            self.arenas.push(Some(Box::new(arena)));
            proof {
                assert(slab_view(self.arenas@) =~= v.slab.push(Some(arena@)));
            }
        }
        proof {
            assert(self.arenas.len() == self.arenas@.len());
        }
        self.live_count = self.live_count + 1;
        proof {
            assert(self@ =~= v.grown(region));
        }
        Ok(ArenaIdx::new(gap))
    }

    /// Shrink the free pool down to `max_free_arenas`. The memory of the arenas
    /// that go is queued to be unmapped.
    ///
    /// Returns the number of arenas removed.
    pub fn shrink(&mut self) -> (r: usize)
        requires
            old(self).wf(),
        ensures
            final(self).wf(),
            final(self).source() == old(self).source(),
            final(self)@ == old(self)@.shrunk(),
            r == old(self)@.excess(),
            r == if old(self)@.free.len() > old(self)@.max_free {
                old(self)@.free.len() - old(self)@.max_free
            } else {
                0
            },
    {
        let removed = self.shrink_listed();
        proof {
            assert(crate::epoch::model::indices(removed@).len() == removed@.len());
        }
        removed.len()
    }

    /// Shrinks the free pool and lists the arenas that went.
    pub(crate) fn shrink_listed(&mut self) -> (r: Vec<ArenaIdx>)
        requires
            old(self).wf(),
        ensures
            final(self).wf(),
            final(self).source() == old(self).source(),
            final(self)@ == old(self)@.shrunk(),
            crate::epoch::model::indices(r@) == old(self)@.dropped(),
    {
        let mut removed: Vec<ArenaIdx> = Vec::new();
        let ghost all = self@.free;
        while self.free_pool.len() > self.max_free
            invariant
                self.wf(),
                self.source == old(self).source,
                self@.shrunk() == old(self)@.shrunk(),
                all == old(self)@.free,
                self@.max_free == old(self)@.max_free,
                removed@.len() + self@.free.len() == all.len(),
                self@.free == all.take(self@.free.len() as int),
                forall|k: int|
                    0 <= k < removed@.len() ==> (#[trigger] removed@[k])@ == all[all.len() - 1 - k],
                removed@.len() > 0 ==> self@.free.len() >= self@.max_free,
            decreases self.free_pool@.len(),
        {
            let ghost v = self@;
            let ghost before = self.arenas@;
            let ghost before_unmapped = self.unmapped@;
            proof {
                assert(v.free.len() == self.free_pool@.len());
                assert(v.live(v.free[v.free.len() - 1]));
                v.drop_last_free_is_sound();
            }
            match self.pop_free() {
                Some(idx) => {
                    removed.push(idx);
                    let at: usize = idx.as_usize();
                    proof {
                        assert(slab_view(before).len() == before.len());
                        assert(slab_view(before)[at as int] == v.slab[at as int]);
                        assert(v.arena(at as int).wf());
                    }
                    let dropped = self.arenas[at].take();
                    proof {
                        assert(slab_view(self.arenas@) =~= v.slab.update(at as int, None));
                    }
                    match dropped {
                        Some(arena) => {
                            let inner: Arena = *arena;
                            let (region, _) = inner.close();
                            self.unmapped.push(region);
                        },
                        None => {},
                    }
                    self.live_count = self.live_count - 1;
                    proof {
                        assert(self@.unmapped =~= regions_view(before_unmapped).push(
                            v.arena(at as int).bytes,
                        ));
                    }
                    self.forget_advice(idx);
                    proof {
                        assert(self@ =~= v.cut());
                    }
                },
                None => {},
            }
        }
        proof {
            assert(self@.free.len() == self.free_pool@.len());
            assert(crate::epoch::model::indices(removed@) =~= old(self)@.dropped());
        }
        removed
    }

    /// The arena at the write index.
    fn write_arena(&self) -> (r: &Arena)
        requires
            self.wf(),
        ensures
            r@ == self@.current(),
    {
        proof {
            assert(slab_view(self.arenas@)[self.write_idx@] == self@.slab[self@.write]);
        }
        self.arenas[self.write_idx.as_usize()].as_ref().unwrap()
    }

    /// Reference to the current writable arena.
    pub fn current_arena(&self) -> (r: &Arena)
        requires
            self.wf(),
        ensures
            r@ == self@.current(),
    {
        self.write_arena()
    }

    /// The current writable arena, to change.
    pub fn current_arena_mut(&mut self) -> (r: &mut Arena)
        requires
            old(self).wf(),
        ensures
            r@ == old(self)@.current(),
            final(self)@ == old(self)@.with_arena(old(self)@.write, final(r)@),
            final(self).source() == old(self).source(),
            final(r)@.wf() && final(r)@.capacity() == r@.capacity() ==> final(self).wf(),
    {
        let ghost v = self@;
        let ghost before = self.arenas@;
        let at: usize = self.write_idx.as_usize();
        proof {
            assert(slab_view(before).len() == before.len());
            assert(slab_view(before)[at as int] == v.slab[at as int]);
            assert forall|arena: Arena|
                slab_view(before.update(at as int, Some(Box::new(arena)))) == #[trigger] v.with_arena(
                    v.write,
                    arena@,
                ).slab by {
                assert(slab_view(before.update(at as int, Some(Box::new(arena))))
                    =~= v.with_arena(v.write, arena@).slab);
            }
            assert forall|a: ArenaView| a.wf() && a.capacity() == v.current().capacity() implies
                #[trigger] v.with_arena(v.write, a).wf() && v.with_arena(v.write, a).live_count()
                == v.live_count() by {
                v.with_arena_is_sound(v.write, a);
            }
        }
        self.arenas[at].as_mut().unwrap()
    }

    /// Slab index of the current writable arena.
    pub fn current_arena_idx(&self) -> (r: ArenaIdx)
        ensures
            r@ == self@.write,
    {
        self.write_idx
    }

    /// Reference to the current writable arena and its slab index in one call.
    pub fn current_arena_with_idx(&self) -> (r: (&Arena, ArenaIdx))
        requires
            self.wf(),
        ensures
            r.0@ == self@.current(),
            r.1@ == self@.write,
    {
        (self.write_arena(), self.write_idx)
    }

    /// Look up an arena by slab index.
    pub fn arena_at(&self, idx: ArenaIdx) -> (r: Option<&Arena>)
        ensures
            r is Some <==> self@.live(idx@),
            r matches Some(arena) ==> arena@ == self@.arena(idx@),
    {
        let at: usize = idx.as_usize();
        if at >= self.arenas.len() {
            return None;
        }
        proof {
            assert(slab_view(self.arenas@)[at as int] == self@.slab[at as int]);
        }
        match &self.arenas[at] {
            Some(arena) => Some(arena),
            None => None,
        }
    }

    /// Look up an arena by slab index, to change it.
    pub fn arena_at_mut(&mut self, idx: ArenaIdx) -> (r: Option<&mut Arena>)
        requires
            old(self).wf(),
        ensures
            r is Some <==> old(self)@.live(idx@),
            final(self).source() == old(self).source(),
            match r {
                Some(arena) => {
                    &&& arena@ == old(self)@.arena(idx@)
                    &&& final(self)@ == old(self)@.with_arena(idx@, final(arena)@)
                    &&& final(arena)@.wf() && final(arena)@.capacity() == arena@.capacity()
                        ==> final(self).wf()
                },
                None => *final(self) == *old(self),
            },
    {
        let ghost v = self@;
        let ghost before = self.arenas@;
        let at: usize = idx.as_usize();
        proof {
            assert(slab_view(before).len() == before.len());
        }
        if at >= self.arenas.len() {
            return None;
        }
        proof {
            assert(slab_view(before)[at as int] == v.slab[at as int]);
            assert forall|arena: Arena|
                slab_view(before.update(at as int, Some(Box::new(arena)))) == #[trigger] v.with_arena(
                    at as int,
                    arena@,
                ).slab by {
                assert(slab_view(before.update(at as int, Some(Box::new(arena))))
                    =~= v.with_arena(at as int, arena@).slab);
            }
            assert forall|a: ArenaView|
                v.live(at as int) && a.wf() && a.capacity() == v.arena(at as int).capacity() implies
                #[trigger] v.with_arena(at as int, a).wf() && v.with_arena(at as int, a).live_count() == v.live_count() by {
                v.with_arena_is_sound(at as int, a);
            }
        }
        if self.arenas[at].is_none() {
            return None;
        }
        Some(self.arenas[at].as_mut().unwrap())
    }

    /// The current epoch number.
    pub fn epoch(&self) -> (r: u64)
        ensures
            r == self@.epoch,
    {
        self.epoch
    }

    /// Number of arenas in the drain queue.
    pub fn draining_count(&self) -> (r: usize)
        ensures
            r == self@.draining.len(),
    {
        self.draining.len()
    }

    /// Number of arenas in the free pool.
    pub fn free_count(&self) -> (r: usize)
        ensures
            r == self@.free.len(),
    {
        self.free_pool.len()
    }

    /// All live arenas with their slab indices, in slab order.
    pub fn live_arenas(&self) -> (r: Vec<(ArenaIdx, &Arena)>)
        ensures
            r@.len() == self@.live_from(0).len(),
            forall|k: int|
                0 <= k < r@.len() ==> (#[trigger] r@[k]).0@ == self@.live_from(0)[k] && r@[k].1@
                    == self@.arena(self@.live_from(0)[k]),
    {
        let ghost v = self@;
        let mut out: Vec<(ArenaIdx, &Arena)> = Vec::new();
        let mut i: usize = 0;
        proof {
            assert(slab_view(self.arenas@).len() == self.arenas@.len());
        }
        while i < self.arenas.len()
            invariant
                v == self@,
                v.slab == slab_view(self.arenas@),
                v.slab.len() == self.arenas@.len(),
                i <= self.arenas@.len(),
                out@.len() + v.live_from(i as int).len() == v.live_from(0).len(),
                v.live_from(0).skip(out@.len() as int) == v.live_from(i as int),
                forall|k: int|
                    0 <= k < out@.len() ==> (#[trigger] out@[k]).0@ == v.live_from(0)[k]
                        && out@[k].1@ == v.arena(v.live_from(0)[k]),
            decreases self.arenas@.len() - i,
        {
            proof {
                assert(slab_view(self.arenas@)[i as int] == v.slab[i as int]);
            }
            match &self.arenas[i] {
                Some(arena) => {
                    proof {
                        let rest = v.live_from(0).skip(out@.len() as int);
                        assert(rest[0] == i);
                        assert(v.live_from(0)[out@.len() as int] == i);
                        assert(v.live_from(0).skip((out@.len() + 1) as int) =~= rest.skip(1));
                        assert(rest.skip(1) =~= v.live_from(i + 1));
                    }
                    out.push((ArenaIdx::new(i), arena));
                },
                None => {},
            }
            i = i + 1;
        }
        out
    }

    /// The slab index of the first live arena, in slab order, that serves or
    /// last served `epoch`.
    pub fn find_epoch(&self, epoch: u64) -> (r: Option<ArenaIdx>)
        ensures
            match r {
                Some(idx) => idx@ == self@.serving(epoch) && self@.live(idx@),
                None => self@.serving(epoch) == self@.slab.len(),
            },
    {
        let ghost v = self@;
        let mut i: usize = 0;
        proof {
            assert(slab_view(self.arenas@).len() == self.arenas@.len());
        }
        while i < self.arenas.len()
            invariant
                v == self@,
                v.slab == slab_view(self.arenas@),
                v.slab.len() == self.arenas@.len(),
                i <= self.arenas@.len(),
                v.serving(epoch) == v.serving_from(i as int, epoch),
            decreases self.arenas@.len() - i,
        {
            proof {
                assert(slab_view(self.arenas@)[i as int] == v.slab[i as int]);
            }
            match &self.arenas[i] {
                Some(arena) => {
                    if arena.epoch() == epoch {
                        return Some(ArenaIdx::new(i));
                    }
                },
                None => {},
            }
            i = i + 1;
        }
        None
    }

    /// The pages that sweeps found idle since the last call, for the kernel to
    /// take back, each with the arena it belongs to. Pages that their arena has
    /// put to use again in the meantime are left out.
    pub fn take_advice(&mut self) -> (r: Vec<(ArenaIdx, PageRange)>)
        requires
            old(self).wf(),
        ensures
            final(self).wf(),
            final(self).source() == old(self).source(),
            final(self)@ == (ManagerView { advice: Seq::empty(), ..old(self)@ }),
            advice_view(r@) == old(self)@.due_advice(),
            forall|k: int|
                0 <= k < r@.len() ==> final(self)@.names_end(((#[trigger] r@[k]).0@, r@[k].1))
                    && final(self)@.untouched((r@[k].0@, r@[k].1)),
    {
        let ghost v = self@;
        let ghost p = v.is_untouched();
        let mut found: Vec<(ArenaIdx, PageRange)> = Vec::new();
        std::mem::swap(&mut found, &mut self.advice);
        let mut out: Vec<(ArenaIdx, PageRange)> = Vec::new();
        let mut k: usize = 0;
        proof {
            assert(self@ =~= (ManagerView { advice: Seq::empty(), ..v }));
            v.mailboxes_do_not_matter(self@);
            reveal(Seq::filter);
            assert(advice_view(out@) =~= v.advice.take(0).filter(p));
        }
        while k < found.len()
            invariant
                v.wf(),
                self@ == (ManagerView { advice: Seq::empty(), ..v }),
                v.advice == advice_view(found@),
                p == v.is_untouched(),
                k <= found@.len(),
                advice_view(out@) == v.advice.take(k as int).filter(p),
            decreases found@.len() - k,
        {
            let entry: (ArenaIdx, PageRange) = found[k];
            let ghost before = out@;
            proof {
                reveal(Seq::filter);
                assert(v.advice[k as int] == (entry.0@, entry.1));
                assert(v.names_end(v.advice[k as int]));
                assert(v.advice.take(k + 1).drop_last() =~= v.advice.take(k as int));
                assert(v.advice.take(k + 1).last() == v.advice[k as int]);
            }
            match self.arena_at(entry.0) {
                Some(arena) => {
                    if arena.used() <= entry.1.start {
                        out.push(entry);
                        proof {
                            assert(advice_view(out@) =~= advice_view(before).push(
                                (entry.0@, entry.1),
                            ));
                        }
                    }
                },
                None => {},
            }
            k = k + 1;
        }
        proof {
            assert(v.advice.take(k as int) =~= v.advice);
            assert forall|j: int| 0 <= j < out@.len() implies self@.names_end(
                ((#[trigger] out@[j]).0@, out@[j].1),
            ) && self@.untouched((out@[j].0@, out@[j].1)) by {
                assert(advice_view(out@)[j] == (out@[j].0@, out@[j].1));
                crate::epoch::model::filtered_advice(v.advice, p, j);
                let n = choose|n: int|
                    0 <= n < v.advice.len() && #[trigger] v.advice[n] == v.due_advice()[j];
                assert(v.names_end(v.advice[n]));
            }
        }
        out
    }

    /// The memory to be unmapped since the last call.
    pub fn take_unmapped(&mut self) -> (r: Vec<&'static mut [u8]>)
        requires
            old(self).wf(),
        ensures
            final(self).wf(),
            final(self).source() == old(self).source(),
            final(self)@ == (ManagerView { unmapped: Seq::empty(), ..old(self)@ }),
            regions_view(r@) == old(self)@.unmapped,
    {
        let ghost v = self@;
        let mut out: Vec<&'static mut [u8]> = Vec::new();
        std::mem::swap(&mut out, &mut self.unmapped);
        proof {
            assert(self@ =~= (ManagerView { unmapped: Seq::empty(), ..v }));
            v.mailboxes_do_not_matter(self@);
        }
        out
    }

    /// Ends the manager: the memory of every live arena, in slab order, to be
    /// unmapped, each with the number of leases that were still out, and then the
    /// memory that was to be unmapped already.
    pub fn close(self) -> (r: Vec<(&'static mut [u8], usize)>)
        requires
            self.wf(),
        ensures
            r@.len() == self@.regions(),
            self@.live_from(0).len() == self@.live_count(),
            forall|k: int|
                0 <= k < self@.live_count() ==> (#[trigger] r@[k]).0@ == self@.arena(
                    self@.live_from(0)[k],
                ).bytes && r@[k].1 == self@.arena(self@.live_from(0)[k]).outstanding(),
            forall|k: int|
                self@.live_count() <= k < r@.len() ==> (#[trigger] r@[k]).0@
                    == self@.unmapped[k - self@.live_count()] && r@[k].1 == 0,
    {
        let ghost v = self@;
        let mut unmapped = self.unmapped;
        let ghost queued = unmapped@;
        let mut arenas = self.arenas;
        let ghost all = arenas@;
        let mut out: Vec<(&'static mut [u8], usize)> = Vec::new();
        let mut i: usize = 0;
        proof {
            assert(slab_view(all).len() == all.len());
        }
        while i < arenas.len()
            invariant
                v.wf(),
                v.slab == slab_view(all),
                v.slab.len() == all.len(),
                arenas@.len() == all.len(),
                forall|j: int| i <= j < all.len() ==> #[trigger] arenas@[j] == all[j],
                i <= all.len(),
                out@.len() + v.live_from(i as int).len() == v.live_from(0).len(),
                v.live_from(0).skip(out@.len() as int) == v.live_from(i as int),
                forall|k: int|
                    0 <= k < out@.len() ==> (#[trigger] out@[k]).0@ == v.arena(
                        v.live_from(0)[k],
                    ).bytes && out@[k].1 == v.arena(v.live_from(0)[k]).outstanding(),
            decreases all.len() - i,
        {
            proof {
                assert(arenas@[i as int] == all[i as int]);
                assert(slab_view(all)[i as int] == v.slab[i as int]);
            }
            match arenas[i].take() {
                Some(arena) => {
                    proof {
                        assert(v.live(i as int));
                        let rest = v.live_from(0).skip(out@.len() as int);
                        assert(rest[0] == i);
                        assert(v.live_from(0)[out@.len() as int] == i);
                        assert(v.live_from(0).skip((out@.len() + 1) as int) =~= rest.skip(1));
                        assert(rest.skip(1) =~= v.live_from(i + 1));
                    }
                    let inner: Arena = *arena;
                    out.push(inner.close());
                },
                None => {},
            }
            i = i + 1;
        }
        proof {
            v.live_list_counts();
            assert(v.unmapped == regions_view(queued));
            assert(queued.skip(0) =~= queued);
        }
        let ghost n = out@.len();
        while unmapped.len() > 0
            invariant
                n == v.live_count(),
                n == v.live_from(0).len(),
                v.unmapped == regions_view(queued),
                n <= out@.len(),
                out@.len() - n + unmapped@.len() == queued.len(),
                unmapped@ == queued.skip(out@.len() - n),
                forall|k: int|
                    0 <= k < n ==> (#[trigger] out@[k]).0@ == v.arena(v.live_from(0)[k]).bytes
                        && out@[k].1 == v.arena(v.live_from(0)[k]).outstanding(),
                forall|k: int|
                    n <= k < out@.len() ==> (#[trigger] out@[k]).0@ == v.unmapped[k - n]
                        && out@[k].1 == 0,
            decreases unmapped@.len(),
        {
            let ghost done = out@.len() - n;
            let region = unmapped.remove(0);
            proof {
                assert(v.unmapped[done] == region@);
                assert(unmapped@ =~= queued.skip(done + 1));
            }
            out.push((region, 0));
        }
        out
    }
}

/// What a rotation does, and what it answers, when it starts from `before` and
/// new memory comes from `source`.
pub open spec fn rotates<F>(
    before: ManagerView,
    after: ManagerView,
    source: F,
    r: Result<RotateResult, TurbineError>,
) -> bool where F: Fn(usize) -> Result<&'static mut [u8], OsError> {
    let mid = before.ready();
    if mid.free.len() > 0 {
        &&& after == mid.popped().activated(mid.free.last())
        &&& r matches Ok(done)
        &&& done.retired_epoch == before.epoch
        &&& done.new_epoch == before.epoch + 1
        &&& done.new_arena_idx is None
    } else if before.at_limit() {
        &&& after == before
        &&& r matches Err(TurbineError::ArenaLimitExceeded { current, max })
        &&& current == before.live_count()
        &&& max == before.max_arenas
    } else {
        match r {
            Ok(done) => {
                &&& exists|region: Region|
                    is_mapped(source, before.arena_size, region.bytes) && region.bytes.len()
                        == before.arena_size && after == (#[trigger] before.grown(
                        region,
                    )).activated(before.gap())
                &&& done.retired_epoch == before.epoch
                &&& done.new_epoch == before.epoch + 1
                &&& done.new_arena_idx matches Some(idx)
                &&& idx@ == before.gap()
            },
            Err(e) => {
                &&& after == before
                &&& e matches TurbineError::Mmap(os)
                &&& call_ensures(source, (before.arena_size,), Err(os))
            },
        }
    }
}

/// The slab of `v` with the arenas in `swept` marked as collected.
spec fn marked(v: ManagerView, swept: Seq<int>) -> Seq<Option<ArenaView>> {
    Seq::new(
        v.slab.len(),
        |i: int|
            if swept.contains(i) {
                Some(ArenaView { state: ArenaState::Collected, ..v.arena(i) })
            } else {
                v.slab[i]
            },
    )
}

/// The manager in the middle of a sweep that has freed `swept` so far.
spec fn sweep_state(v: ManagerView, swept: Seq<int>) -> ManagerView {
    ManagerView {
        slab: marked(v, swept),
        free: v.free + swept,
        advice: v.advice + swept.filter_map(v.advice_fn()),
        ..v
    }
}

} // verus!
