//! What holds after any sequence of calls.
use vstd::prelude::*;

use crate::config::PoolConfig;
use crate::epoch::arena::{ArenaState, ArenaView, Region};
use crate::epoch::manager::RotateResult;
use crate::epoch::model::ManagerView;
use crate::error::{OsError, TurbineError};
use crate::ring::registration::RegistrationView;

verus! {

/// A call on an arena.
pub enum ArenaStep {
    AcquireLease,
    ReleaseLease,
    RemoteRelease,
    Allocate { len: usize },
    SetState { state: ArenaState },
    SetEpoch { epoch: u64 },
}

impl ArenaView {
    /// The arena after a call.
    pub open spec fn stepped(self, step: ArenaStep) -> Self {
        match step {
            ArenaStep::AcquireLease => ArenaView { acquired: self.acquired + 1, ..self },
            ArenaStep::ReleaseLease => ArenaView { acquired: (self.acquired - 1) as nat, ..self },
            ArenaStep::RemoteRelease => ArenaView { returned: self.returned + 1, ..self },
            ArenaStep::Allocate { len } => if len <= self.available() {
                ArenaView {
                    used: self.used + len as nat,
                    next_buf_id: self.next_buf_id.wrapping_add(1),
                    ..self
                }
            } else {
                self
            },
            ArenaStep::SetState { state } => ArenaView { state, ..self },
            ArenaStep::SetEpoch { epoch } => ArenaView { epoch, ..self },
        }
    }

    /// The call can be made: only a lease that is out is given back, and the
    /// counter has room for another.
    pub open spec fn allows(self, step: ArenaStep) -> bool {
        match step {
            ArenaStep::AcquireLease => self.acquired < usize::MAX,
            ArenaStep::ReleaseLease | ArenaStep::RemoteRelease => self.outstanding() > 0,
            _ => true,
        }
    }

    /// The arena after some calls.
    pub open spec fn run(self, steps: Seq<ArenaStep>) -> Self
        decreases steps.len(),
    {
        if steps.len() == 0 {
            self
        } else {
            self.run(steps.drop_last()).stepped(steps.last())
        }
    }

    /// Each of some calls can be made when its turn comes.
    pub open spec fn allows_all(self, steps: Seq<ArenaStep>) -> bool
        decreases steps.len(),
    {
        steps.len() > 0 ==> self.allows_all(steps.drop_last()) && self.run(
            steps.drop_last(),
        ).allows(steps.last())
    }

    /// The number of leases out is the number taken minus the number given back,
    /// on this thread or another, in whatever order that happened, and whatever
    /// else was called in between.
    pub proof fn leases_add_up(self, steps: Seq<ArenaStep>)
        requires
            self.wf(),
            self.acquired == 0,
            self.allows_all(steps),
        ensures
            self.run(steps).wf(),
            self.run(steps).outstanding() == count_acquired(steps) - count_released(steps)
                - count_returned(steps),
        decreases steps.len(),
    {
        if steps.len() > 0 {
            self.leases_add_up(steps.drop_last());
        }
    }
}

/// How often a lease was taken.
pub open spec fn count_acquired(steps: Seq<ArenaStep>) -> nat
    decreases steps.len(),
{
    if steps.len() == 0 {
        0
    } else {
        count_acquired(steps.drop_last()) + if steps.last() is AcquireLease {
            1nat
        } else {
            0nat
        }
    }
}

/// How often a lease was given back on the owning thread.
pub open spec fn count_released(steps: Seq<ArenaStep>) -> nat
    decreases steps.len(),
{
    if steps.len() == 0 {
        0
    } else {
        count_released(steps.drop_last()) + if steps.last() is ReleaseLease {
            1nat
        } else {
            0nat
        }
    }
}

/// How often a lease was given back by another thread.
pub open spec fn count_returned(steps: Seq<ArenaStep>) -> nat
    decreases steps.len(),
{
    if steps.len() == 0 {
        0
    } else {
        count_returned(steps.drop_last()) + if steps.last() is RemoteRelease {
            1nat
        } else {
            0nat
        }
    }
}

/// A call on a registration, with what the ring said to it.
pub enum RegistrationStep {
    /// `register`, and `finish_register` if there were slots for all.
    Register { arenas: Seq<int>, accepted: bool },
    Unregister { accepted: bool },
    RegisterArena { arena: int },
    UnregisterArena { arena: int },
}

impl RegistrationView {
    /// The registration after a call.
    pub open spec fn stepped(self, step: RegistrationStep) -> Self {
        match step {
            RegistrationStep::Register { arenas, accepted } => if self.changed_by(step) {
                (RegistrationView { registered: true, ..self.placed_all(arenas) }).next()
            } else {
                self.placed_all(arenas)
            },
            RegistrationStep::Unregister { accepted } => if self.changed_by(step) {
                (RegistrationView { registered: false, ..self }).cleared().next()
            } else {
                self
            },
            RegistrationStep::RegisterArena { arena } => if self.changed_by(step) {
                self.placed(arena).next()
            } else {
                self
            },
            RegistrationStep::UnregisterArena { arena } => if self.changed_by(step) {
                self.removed(arena).next()
            } else {
                self
            },
        }
    }

    /// The call changes what the ring is to know: it succeeds, and there is
    /// something to do.
    pub open spec fn changed_by(self, step: RegistrationStep) -> bool {
        match step {
            RegistrationStep::Register { arenas, accepted } => arenas.len() <= self.slots.room()
                && accepted,
            RegistrationStep::Unregister { accepted } => self.registered && accepted,
            RegistrationStep::RegisterArena { arena } => !self.slots.full(),
            RegistrationStep::UnregisterArena { arena } => self.held.contains_key(arena),
        }
    }

    /// The registration after some calls.
    pub open spec fn run(self, steps: Seq<RegistrationStep>) -> Self
        decreases steps.len(),
    {
        if steps.len() == 0 {
            self
        } else {
            self.run(steps.drop_last()).stepped(steps.last())
        }
    }

    /// How many of some calls change the registration.
    pub open spec fn changes(self, steps: Seq<RegistrationStep>) -> nat
        decreases steps.len(),
    {
        if steps.len() == 0 {
            0
        } else {
            self.changes(steps.drop_last()) + if self.run(steps.drop_last()).changed_by(
                steps.last(),
            ) {
                1nat
            } else {
                0nat
            }
        }
    }

    /// Giving out slots does not count as a change by itself.
    proof fn placing_keeps_generation(self, arenas: Seq<int>)
        ensures
            self.placed_all(arenas).generation == self.generation,
        decreases arenas.len(),
    {
        if arenas.len() > 0 && !self.slots.full() {
            self.placed(arenas[0]).placing_keeps_generation(arenas.drop_first());
        }
    }

    /// The generation starts at zero and counts the calls that changed the
    /// registration. Calls that fail or have nothing to do leave it alone, and it
    /// never goes back.
    pub proof fn generation_counts_changes(slots: usize, steps: Seq<RegistrationStep>)
        requires
            RegistrationView::initial(slots).changes(steps) <= u64::MAX,
        ensures
            RegistrationView::initial(slots).run(steps).generation == RegistrationView::initial(
                slots,
            ).changes(steps),
            steps.len() > 0 ==> RegistrationView::initial(slots).run(steps.drop_last()).generation
                <= RegistrationView::initial(slots).run(steps).generation,
        decreases steps.len(),
    {
        if steps.len() > 0 {
            RegistrationView::generation_counts_changes(slots, steps.drop_last());
            let before = RegistrationView::initial(slots).run(steps.drop_last());
            match steps.last() {
                RegistrationStep::Register { arenas, accepted } => {
                    before.placing_keeps_generation(arenas);
                },
                _ => {},
            }
        }
    }
}

/// A manager goes from one state to the next by a call of `rotate`, `collect`
/// or `shrink`.
pub open spec fn manager_step<F>(before: ManagerView, after: ManagerView, source: F) -> bool where
    F: Fn(usize) -> Result<&'static mut [u8], OsError>,
 {
    ||| after == before.collected()
    ||| after == before.shrunk()
    ||| exists|r: Result<RotateResult, TurbineError>| #[trigger]
        crate::epoch::manager::rotates(before, after, source, r)
}

/// A manager goes from one state to the next by a change to the arena at `i`,
/// such as a lease, that leaves its state and its epoch alone.
pub open spec fn touches(before: ManagerView, after: ManagerView, i: int) -> bool {
    &&& before.live(i)
    &&& after == before.with_arena(i, after.arena(i))
    &&& after.arena(i).state == before.arena(i).state
    &&& after.arena(i).epoch == before.arena(i).epoch
}

impl ManagerView {
    /// The arena at `i` is leased and not in the free pool.
    pub open spec fn holds_fast(self, i: int) -> bool {
        &&& self.live(i)
        &&& self.arena(i).outstanding() > 0
        &&& !self.free.contains(i)
    }

    /// A sweep leaves a leased arena alone.
    proof fn sweeping_spares(self, i: int)
        requires
            self.wf(),
            self.holds_fast(i),
        ensures
            self.collected().holds_fast(i),
            self.collected().arena(i) == self.arena(i),
    {
        self.sweep_splits();
        let next = self.collected();
        assert(!self.swept().contains(i));
        if next.free.contains(i) {
            let k = choose|k: int| 0 <= k < next.free.len() && next.free[k] == i;
            if k < self.free.len() {
                assert(self.free[k] == i);
            } else {
                assert(self.swept()[k - self.free.len()] == i);
            }
        }
    }

    /// One call leaves a leased arena alone, but for its state.
    proof fn step_spares<F: Fn(usize) -> Result<&'static mut [u8], OsError>>(
        self,
        after: ManagerView,
        source: F,
        i: int,
    )
        requires
            self.wf(),
            self.holds_fast(i),
            manager_step(self, after, source),
        ensures
            after.holds_fast(i),
            after.arena(i) == (ArenaView { state: after.arena(i).state, ..self.arena(i) }),
    {
        self.sweeping_spares(i);
        if after == self.collected() {
        } else if after == self.shrunk() {
            self.shrunk_is_sound();
            let gone = self.free.skip(self.free.len() - self.excess());
            assert(!gone.contains(i)) by {
                if gone.contains(i) {
                    let k = choose|k: int| 0 <= k < gone.len() && gone[k] == i;
                    assert(self.free[self.free.len() - self.excess() + k] == i);
                }
            }
            assert(self.shrunk().slab[i] == self.slab[i]);
            if after.free.contains(i) {
                let k = choose|k: int| 0 <= k < after.free.len() && after.free[k] == i;
                assert(self.free[k] == i);
            }
        } else {
            let r = choose|r: Result<RotateResult, TurbineError>| #[trigger]
                crate::epoch::manager::rotates(self, after, source, r);
            let mid = self.ready();
            self.gap_is_free(0);
            self.collected_is_sound();
            assert(mid.live(mid.write));
            if mid.free.len() > 0 {
                assert(mid.free[mid.free.len() - 1] != i);
                assert(mid.live(mid.free[mid.free.len() - 1]));
                if after.free.contains(i) {
                    let k = choose|k: int| 0 <= k < after.free.len() && after.free[k] == i;
                    assert(mid.free[k] == i);
                }
            }
        }
    }

    /// A lease pins its arena: while it is held, no number of rotations, sweeps
    /// and shrinks, and nothing that happens to other arenas, moves, resets,
    /// collects or frees the arena. It stays at its index with its memory, its
    /// epoch, its used bytes and its leases.
    pub proof fn leased_arenas_stay<F: Fn(usize) -> Result<&'static mut [u8], OsError>>(
        states: Seq<ManagerView>,
        source: F,
        i: int,
    )
        requires
            states.len() > 0,
            forall|k: int| 0 <= k < states.len() ==> (#[trigger] states[k]).wf(),
            states[0].write == i,
            states[0].arena(i).outstanding() > 0,
            forall|k: int|
                0 < k < states.len() ==> manager_step(states[k - 1], #[trigger] states[k], source)
                    || exists|j: int| j != i && #[trigger] touches(states[k - 1], states[k], j),
        ensures
            states.last().live(i),
            states.last().arena(i) == (ArenaView {
                state: states.last().arena(i).state,
                ..states[0].arena(i)
            }),
            states.last().holds_fast(i),
        decreases states.len(),
    {
        let first = states[0];
        assert(first.wf());
        if first.free.contains(i) {
            let k = choose|k: int| 0 <= k < first.free.len() && first.free[k] == i;
            assert(first.free[k] != first.write);
        }
        if states.len() > 1 {
            let rest = states.drop_last();
            assert forall|k: int| 0 <= k < rest.len() implies (#[trigger] rest[k]).wf() by {
                assert(rest[k] == states[k]);
            }
            assert forall|k: int| 0 < k < rest.len() implies manager_step(
                rest[k - 1],
                #[trigger] rest[k],
                source,
            ) || exists|j: int| j != i && #[trigger] touches(rest[k - 1], rest[k], j) by {
                assert(rest[k] == states[k] && rest[k - 1] == states[k - 1]);
            }
            ManagerView::leased_arenas_stay(rest, source, i);
            let n = states.len() - 1;
            let before = states[n - 1];
            let after = states[n];
            assert(before == rest.last() && before.wf());
            if manager_step(before, after, source) {
                before.step_spares(after, source, i);
            } else {
                let j = choose|j: int| j != i && #[trigger] touches(before, after, j);
                assert(after.slab[i] == before.slab[i]);
            }
        }
    }

    /// The written arena can be written and serves the current epoch.
    pub open spec fn is_writable(self) -> bool {
        &&& self.live(self.write)
        &&& self.current().state == ArenaState::Writable
        &&& self.current().epoch == self.epoch
    }

    /// There is always an arena to write to: in every state that a new manager
    /// comes to by rotations, successful or not, sweeps, shrinks and leases, the
    /// written arena is live and writable and serves the current epoch.
    pub proof fn written_arena_is_writable<F: Fn(usize) -> Result<&'static mut [u8], OsError>>(
        config: PoolConfig,
        regions: Seq<Region>,
        states: Seq<ManagerView>,
        source: F,
    )
        requires
            config.valid(),
            regions.len() == config.initial_arenas,
            states.len() > 0,
            states[0] == ManagerView::initial(config, regions),
            forall|k: int| 0 <= k < states.len() ==> (#[trigger] states[k]).wf(),
            forall|k: int|
                0 < k < states.len() ==> manager_step(states[k - 1], #[trigger] states[k], source)
                    || exists|j: int| #[trigger] touches(states[k - 1], states[k], j),
        ensures
            states.last().is_writable(),
        decreases states.len(),
    {
        if states.len() > 1 {
            let rest = states.drop_last();
            assert forall|k: int| 0 <= k < rest.len() implies (#[trigger] rest[k]).wf() by {
                assert(rest[k] == states[k]);
            }
            assert forall|k: int| 0 < k < rest.len() implies manager_step(
                rest[k - 1],
                #[trigger] rest[k],
                source,
            ) || exists|j: int| #[trigger] touches(rest[k - 1], rest[k], j) by {
                assert(rest[k] == states[k] && rest[k - 1] == states[k - 1]);
            }
            ManagerView::written_arena_is_writable(config, regions, rest, source);
            let n = states.len() - 1;
            let before = states[n - 1];
            let after = states[n];
            assert(before == rest.last() && before.wf());
            assert(after.wf());
            assert(after.live(after.write));
            before.collected_is_sound();
            before.shrunk_is_sound();
            if after == before.collected() || after == before.shrunk() {
            } else if manager_step(before, after, source) {
                let r = choose|r: Result<RotateResult, TurbineError>| #[trigger]
                    crate::epoch::manager::rotates(before, after, source, r);
                let mid = before.ready();
                before.gap_is_free(0);
                if mid.free.len() > 0 {
                    assert(mid.live(mid.free[mid.free.len() - 1]));
                }
            } else {
                let j = choose|j: int| #[trigger] touches(before, after, j);
            }
        }
    }

    /// No region gets lost: a rotation that maps one adds one, sweeps and shrinks
    /// keep their number, and `close` and `take_unmapped` hand out what there is.
    pub proof fn regions_are_accounted_for<F: Fn(usize) -> Result<&'static mut [u8], OsError>>(
        self,
        after: ManagerView,
        source: F,
        r: Result<RotateResult, TurbineError>,
    )
        requires
            self.wf(),
        ensures
            self.collected().regions() == self.regions(),
            self.shrunk().regions() == self.regions(),
            (ManagerView { unmapped: Seq::empty(), ..self }).regions() + self.unmapped.len()
                == self.regions(),
            crate::epoch::manager::rotates(self, after, source, r) ==> after.regions()
                == self.regions() + if r is Ok && r->Ok_0.new_arena_idx is Some {
                1int
            } else {
                0int
            },
    {
        self.collected_is_sound();
        self.shrunk_is_sound();
        self.shrunk_queues_memory();
    }
}

} // verus!
