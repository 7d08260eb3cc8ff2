//! What a pool keeps to of its configuration, in every state that it comes to.
use vstd::prelude::*;

use crate::buffer::leased::Lease;
use crate::buffer::ledger::PoolView;
use crate::config::PoolConfig;
use crate::epoch::arena::Region;
use crate::epoch::model::ManagerView;
use crate::error::{OsError, TurbineError};
use crate::ring::registration::RegistrationView;

verus! {

/// A registration goes from one state to the next by a call on the pool.
pub open spec fn registration_step(before: RegistrationView, after: RegistrationView) -> bool {
    ||| exists|arenas: Seq<int>| after == #[trigger] before.placed_all(arenas)
    ||| exists|arenas: Seq<int>| after == #[trigger] before.pre_placed_all(arenas)
    ||| after == (RegistrationView { registered: true, ..before }).next()
    ||| after == (RegistrationView { registered: false, ..before }).cleared().next()
}

/// A pool goes from one state to the next by one of its functions: a lease, a
/// rotation, a sweep, a shrink, an epoch reclaimed, a lease given back on this
/// thread or another, bytes written, a call that concerns the registration, or
/// what is queued for the kernel taken.
pub open spec fn pool_step<F>(before: PoolView, after: PoolView, source: F) -> bool where
    F: Fn(usize) -> Result<&'static mut [u8], OsError>,
 {
    ||| exists|len: nat| after == #[trigger] before.leased(len)
    ||| exists|r: Result<(), TurbineError>| #[trigger]
        crate::buffer::pool::pool_rotates(before, after, source, r)
    ||| after == before.collected()
    ||| after == before.shrunk()
    ||| exists|i: int, epoch: u64| after == #[trigger] before.reclaimed(i, epoch)
    ||| exists|l: Lease| after == #[trigger] before.given_back(l)
    ||| exists|l: Lease| after == #[trigger] before.returned(l)
    ||| exists|l: Lease, data: Seq<u8>| after == #[trigger] before.written(l, data)
    ||| registration_step(before.reg, after.reg) && after == (PoolView {
        reg: after.reg,
        ..before
    })
    ||| after == (PoolView {
        manager: ManagerView { advice: Seq::empty(), ..before.manager },
        ..before
    })
    ||| after == (PoolView {
        manager: ManagerView { unmapped: Seq::empty(), ..before.manager },
        ..before
    })
}

/// `states` is what a pool made from `config` went through, from its beginning.
pub open spec fn is_history<F>(config: PoolConfig, states: Seq<PoolView>, source: F) -> bool where
    F: Fn(usize) -> Result<&'static mut [u8], OsError>,
 {
    &&& states.len() > 0
    &&& exists|regions: Seq<Region>|
        regions.len() == config.initial_arenas && states[0] == #[trigger] PoolView::initial(
            config,
            regions,
        )
    &&& forall|k: int| 0 <= k < states.len() ==> (#[trigger] states[k]).wf()
    &&& forall|k: int|
        0 < k < states.len() ==> pool_step(states[k - 1], #[trigger] states[k], source)
}

impl RegistrationView {
    /// Handing slots out does not make more of them.
    proof fn placing_keeps_capacity(self, arenas: Seq<int>)
        ensures
            self.placed_all(arenas).slots.capacity == self.slots.capacity,
            self.pre_placed_all(arenas).slots.capacity == self.slots.capacity,
        decreases arenas.len(),
    {
        if arenas.len() > 0 {
            self.placed(arenas[0]).placing_keeps_capacity(arenas.drop_first());
            self.pre_placed(arenas[0]).placing_keeps_capacity(arenas.drop_first());
        }
    }
}

impl PoolView {
    /// One call changes neither the sizes, the limits nor the number of slots,
    /// and takes the number of arenas up only by mapping one below the limit.
    proof fn step_keeps_settings<F: Fn(usize) -> Result<&'static mut [u8], OsError>>(
        self,
        after: PoolView,
        source: F,
    )
        requires
            self.wf(),
            after.wf(),
            pool_step(self, after, source),
        ensures
            self.manager.settings_kept(after.manager),
            after.reg.slots.capacity == self.reg.slots.capacity,
            after.manager.live_count() <= self.manager.live_count() || (
            after.manager.live_count() == self.manager.live_count() + 1 && (
            self.manager.max_arenas == 0 || self.manager.live_count() < self.manager.max_arenas)),
    {
        let v = self.manager;
        v.collected_is_sound();
        v.shrunk_is_sound();
        v.shrinking_removes_the_excess();
        if exists|r: Result<(), TurbineError>| #[trigger]
            crate::buffer::pool::pool_rotates(self, after, source, r) {
            let r = choose|r: Result<(), TurbineError>| #[trigger]
                crate::buffer::pool::pool_rotates(self, after, source, r);
            if v.ready().free.len() == 0 && r is Ok {
                let region = choose|region: Region|
                    crate::epoch::manager::is_mapped(source, v.arena_size, region.bytes)
                        && region.bytes.len() == v.arena_size && after == #[trigger] self.extended(
                        region,
                    );
            }
        } else if registration_step(self.reg, after.reg) && after == (PoolView {
            reg: after.reg,
            ..self
        }) {
            if exists|arenas: Seq<int>| after.reg == #[trigger] self.reg.placed_all(arenas) {
                let arenas = choose|arenas: Seq<int>|
                    after.reg == #[trigger] self.reg.placed_all(arenas);
                self.reg.placing_keeps_capacity(arenas);
            } else if exists|arenas: Seq<int>|
                after.reg == #[trigger] self.reg.pre_placed_all(arenas) {
                let arenas = choose|arenas: Seq<int>|
                    after.reg == #[trigger] self.reg.pre_placed_all(arenas);
                self.reg.placing_keeps_capacity(arenas);
            }
        }
    }

    /// In every state that a pool comes to, it goes by the numbers of its
    /// configuration: the sizes of arenas and pages, the two limits and the number
    /// of slots are the configured ones, and every arena has the configured size.
    /// It never has more arenas mapped than the configuration allows, if it starts
    /// with no more.
    pub proof fn configuration_holds_for_good<F: Fn(usize) -> Result<&'static mut [u8], OsError>>(
        config: PoolConfig,
        states: Seq<PoolView>,
        source: F,
    )
        requires
            config.valid(),
            is_history(config, states, source),
        ensures
            ({
                let v = states.last().manager;
                &&& v.arena_size == config.arena_size
                &&& v.page_size == config.page_size
                &&& v.max_free == config.max_free_arenas
                &&& v.max_arenas == config.max_total_arenas
                &&& states.last().reg.slots.capacity == config.registration_slots
                &&& forall|i: int|
                    0 <= i < v.slab.len() && (#[trigger] v.slab[i]) is Some
                        ==> v.slab[i]->0.bytes.len() == config.arena_size
                &&& config.max_total_arenas > 0 && config.initial_arenas
                    <= config.max_total_arenas ==> v.arenas_mapped().len()
                    <= config.max_total_arenas
                &&& v.arenas_mapped().finite()
            }),
        decreases states.len(),
    {
        let last = states.last();
        assert(last == states[states.len() - 1]);
        assert(last.wf());
        last.manager.live_arenas_are_counted();
        assert forall|i: int|
            0 <= i < last.manager.slab.len() && (#[trigger] last.manager.slab[i]) is Some implies
            last.manager.slab[i]->0.bytes.len() == last.manager.arena_size by {
            assert(last.manager.live(i));
            assert(last.manager.arena(i).capacity() == last.manager.arena_size);
        }
        if states.len() == 1 {
            let regions = choose|regions: Seq<Region>|
                regions.len() == config.initial_arenas && states[0] == #[trigger] PoolView::initial(
                    config,
                    regions,
                );
            PoolView::new_pools_follow_their_config(config, regions);
        } else {
            let rest = states.drop_last();
            assert forall|k: int| 0 <= k < rest.len() implies (#[trigger] rest[k]).wf() by {
                assert(rest[k] == states[k]);
            }
            assert forall|k: int| 0 < k < rest.len() implies pool_step(
                rest[k - 1],
                #[trigger] rest[k],
                source,
            ) by {
                assert(rest[k] == states[k] && rest[k - 1] == states[k - 1]);
            }
            assert(rest[0] == states[0]);
            PoolView::configuration_holds_for_good(config, rest, source);
            let n = states.len() - 1;
            assert(rest.last() == states[n - 1]);
            assert(pool_step(states[n - 1], states[n], source));
            states[n - 1].step_keeps_settings(states[n], source);
            states[n - 1].manager.live_arenas_are_counted();
        }
    }

    /// In every state that a pool comes to, a rotation fails for want of arenas
    /// exactly if none is free, none can be swept, and as many are mapped as the
    /// configuration allows. The error names the configured limit and how many
    /// there are. Without a limit in the configuration it never does.
    pub proof fn rotations_fail_at_the_configured_limit<
        F: Fn(usize) -> Result<&'static mut [u8], OsError>,
    >(
        config: PoolConfig,
        states: Seq<PoolView>,
        source: F,
        after: PoolView,
        r: Result<(), TurbineError>,
    )
        requires
            config.valid(),
            is_history(config, states, source),
            crate::buffer::pool::pool_rotates(states.last(), after, source, r),
        ensures
            ({
                let v = states.last().manager;
                let mapped = v.arenas_mapped().len();
                let refused = r is Err && r->Err_0 is ArenaLimitExceeded;
                &&& refused <==> v.free.len() == 0 && v.collected().free.len() == 0
                    && config.max_total_arenas > 0 && mapped >= config.max_total_arenas
                &&& refused ==> r->Err_0->current == mapped && r->Err_0->max
                    == config.max_total_arenas
                &&& r is Err && !refused ==> r->Err_0 is Mmap
                &&& r is Ok && config.max_total_arenas > 0 && config.initial_arenas
                    <= config.max_total_arenas && after.wf() ==> after.manager.arenas_mapped().len()
                    <= config.max_total_arenas
            }),
    {
        PoolView::configuration_holds_for_good(config, states, source);
        let last = states.last();
        assert(last == states[states.len() - 1]);
        assert(last.wf());
        let v = last.manager;
        v.live_arenas_are_counted();
        v.sweeps_keep_the_order();
        if r is Ok && after.wf() {
            assert(pool_step(last, after, source));
            last.step_keeps_settings(after, source);
            after.manager.live_arenas_are_counted();
        }
    }

    /// In every state that a pool comes to, shrinking leaves as many arenas free
    /// as the configuration lets it keep, or all of them if there are no more, and
    /// unmaps the rest.
    pub proof fn shrinking_goes_by_the_configured_limit<
        F: Fn(usize) -> Result<&'static mut [u8], OsError>,
    >(config: PoolConfig, states: Seq<PoolView>, source: F)
        requires
            config.valid(),
            is_history(config, states, source),
        ensures
            ({
                let before = states.last().manager;
                let after = states.last().shrunk().manager;
                let gone = if before.free.len() > config.max_free_arenas {
                    before.free.len() - config.max_free_arenas
                } else {
                    0
                };
                &&& before.excess() == gone
                &&& after.free.len() == before.free.len() - gone
                &&& after.unmapped.len() == before.unmapped.len() + gone
                &&& after.arenas_mapped().len() == before.arenas_mapped().len() - gone
                &&& after.max_free == config.max_free_arenas
            }),
    {
        PoolView::configuration_holds_for_good(config, states, source);
        let last = states.last();
        assert(last == states[states.len() - 1]);
        assert(last.wf());
        last.shrinking_drops_and_reports();
        last.manager.shrinking_removes_the_excess();
        last.manager.shrunk_is_sound();
        last.manager.live_arenas_are_counted();
        last.manager.shrunk().live_arenas_are_counted();
    }

    /// A request for more bytes than the configured size of arenas never fits, and
    /// one for no more fits every arena that a rotation moves on to.
    pub proof fn requests_go_by_the_configured_size<
        F: Fn(usize) -> Result<&'static mut [u8], OsError>,
    >(
        config: PoolConfig,
        states: Seq<PoolView>,
        source: F,
        after: PoolView,
        len: usize,
        r: Result<crate::buffer::leased::LeasedBuffer, TurbineError>,
    )
        requires
            config.valid(),
            is_history(config, states, source),
            crate::buffer::pool::lease_rotates(states.last(), after, source, len, r),
        ensures
            r is Ok ==> len <= config.arena_size,
            r matches Err(TurbineError::ArenaFull { requested, available }) ==> requested == len
                && available == config.arena_size && len > config.arena_size,
    {
        PoolView::configuration_holds_for_good(config, states, source);
    }
}

impl ManagerView {
    /// The same holds of a manager without a pool: through rotations, sweeps,
    /// shrinks and whatever happens to its arenas it goes by the sizes and limits
    /// of its configuration, and never has more arenas mapped than that allows, if
    /// it starts with no more.
    pub proof fn managers_keep_to_their_configuration<
        F: Fn(usize) -> Result<&'static mut [u8], OsError>,
    >(config: PoolConfig, regions: Seq<Region>, states: Seq<ManagerView>, source: F)
        requires
            config.valid(),
            regions.len() == config.initial_arenas,
            states.len() > 0,
            states[0] == ManagerView::initial(config, regions),
            forall|k: int| 0 <= k < states.len() ==> (#[trigger] states[k]).wf(),
            forall|k: int|
                0 < k < states.len() ==> crate::histories::manager_step(
                    states[k - 1],
                    #[trigger] states[k],
                    source,
                ) || exists|j: int| #[trigger]
                    crate::histories::touches(states[k - 1], states[k], j),
        ensures
            states.last().arena_size == config.arena_size,
            states.last().page_size == config.page_size,
            states.last().max_free == config.max_free_arenas,
            states.last().max_arenas == config.max_total_arenas,
            config.max_total_arenas > 0 && config.initial_arenas <= config.max_total_arenas
                ==> states.last().arenas_mapped().len() <= config.max_total_arenas,
        decreases states.len(),
    {
        let n = states.len() - 1;
        assert(states[n].wf());
        states[n].live_arenas_are_counted();
        if n == 0 {
            ManagerView::new_managers_follow_their_config(config, regions);
        } else {
            let rest = states.drop_last();
            assert forall|k: int| 0 <= k < rest.len() implies (#[trigger] rest[k]).wf() by {
                assert(rest[k] == states[k]);
            }
            assert forall|k: int| 0 < k < rest.len() implies crate::histories::manager_step(
                rest[k - 1],
                #[trigger] rest[k],
                source,
            ) || exists|j: int| #[trigger]
                crate::histories::touches(rest[k - 1], rest[k], j) by {
                assert(rest[k] == states[k] && rest[k - 1] == states[k - 1]);
            }
            ManagerView::managers_keep_to_their_configuration(config, regions, rest, source);
            let before = states[n - 1];
            let after = states[n];
            assert(before == rest.last() && before.wf());
            before.live_arenas_are_counted();
            before.collected_is_sound();
            before.shrinking_removes_the_excess();
            before.sweeps_keep_the_order();
            if after == before.collected() || after == before.shrunk() {
            } else if crate::histories::manager_step(before, after, source) {
                let r = choose|r: Result<crate::epoch::manager::RotateResult, TurbineError>|
                    #[trigger]
                    crate::epoch::manager::rotates(before, after, source, r);
            } else {
                let j = choose|j: int| #[trigger]
                    crate::histories::touches(before, after, j);
            }
        }
    }
}

} // verus!
