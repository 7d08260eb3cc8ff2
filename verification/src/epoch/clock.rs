//! A fixed ring of arenas that rotates through epochs.
use vstd::prelude::*;

use crate::config::PoolConfig;
use crate::epoch::arena::{Arena, ArenaState, ArenaView, Region};
use crate::epoch::manager::{map_regions, SetupFailure};
use crate::error::{OsError, TurbineError};

verus! {

/// What a clock is: its ring of arenas, which of them is written, and the
/// epoch.
#[verifier::ext_equal]
pub struct ClockView {
    pub arenas: Seq<ArenaView>,
    pub write: int,
    pub epoch: u64,
}

/// Something that is done with a clock.
pub enum ClockStep {
    /// A call of `rotate`.
    Rotate,
    /// A call of `try_collect`.
    TryCollect { epoch: u64 },
    /// A change to one of the arenas, such as a lease.
    Change { i: int, arena: ArenaView },
}

impl ClockView {
    /// The ring is not empty, the written arena is in it, and all counters are
    /// sound.
    pub open spec fn wf(self) -> bool {
        &&& 0 <= self.write < self.arenas.len() <= usize::MAX
        &&& forall|i: int| 0 <= i < self.arenas.len() ==> (#[trigger] self.arenas[i]).wf()
    }

    /// A clock that has just mapped `regions`: the first arena is written.
    pub open spec fn initial(regions: Seq<Region>) -> Self {
        ClockView {
            arenas: Seq::new(
                regions.len(),
                |i: int|
                    if i == 0 {
                        ArenaView::unused(regions[i]).recycled(0)
                    } else {
                        ArenaView::unused(regions[i])
                    },
            ),
            write: 0,
            epoch: 0,
        }
    }

    /// The arena after the written one in the ring.
    pub open spec fn next(self) -> int {
        if self.write + 1 == self.arenas.len() {
            0
        } else {
            self.write + 1
        }
    }

    /// The written arena marked as retired.
    pub open spec fn retired(self) -> Self {
        ClockView {
            arenas: self.arenas.update(
                self.write,
                ArenaView { state: ArenaState::Retired, ..self.arenas[self.write] },
            ),
            ..self
        }
    }

    /// The next arena recycled to serve the next epoch.
    pub open spec fn rotated(self) -> Self {
        let epoch = (self.epoch + 1) as u64;
        ClockView {
            arenas: self.retired().arenas.update(
                self.next(),
                self.retired().arenas[self.next()].recycled(epoch),
            ),
            write: self.next(),
            epoch,
        }
    }

    /// The first arena of the ring, from `k` on, that serves or last served
    /// `epoch`, or the size of the ring.
    pub open spec fn serving_from(self, k: int, epoch: u64) -> int
        decreases self.arenas.len() - k,
    {
        if k >= self.arenas.len() {
            self.arenas.len() as int
        } else if self.arenas[k].epoch == epoch {
            k
        } else {
            self.serving_from(k + 1, epoch)
        }
    }

    /// The arena that `epoch` is looked up in.
    pub open spec fn serving(self, epoch: u64) -> int {
        self.serving_from(0, epoch)
    }

    /// The clock with another arena at `i`.
    pub open spec fn with_arena(self, i: int, arena: ArenaView) -> Self {
        ClockView { arenas: self.arenas.update(i, arena), ..self }
    }

    /// The epochs of the retired arenas among the first `n`, in ring order.
    pub open spec fn retired_epochs(self, n: int) -> Seq<u64>
        decreases n,
    {
        if n <= 0 {
            Seq::empty()
        } else if self.arenas[n - 1].state == ArenaState::Retired {
            self.retired_epochs(n - 1).push(self.arenas[n - 1].epoch)
        } else {
            self.retired_epochs(n - 1)
        }
    }

    /// What a rotation does, and what it answers.
    pub open spec fn turns_to(self, after: ClockView, r: Result<(u64, u64), TurbineError>) -> bool {
        let next = self.arenas[self.next()];
        if next.outstanding() > 0 {
            &&& r == Err::<(u64, u64), TurbineError>(
                TurbineError::EpochNotCollectable(next.epoch, next.outstanding() as usize),
            )
            &&& after == self.retired()
        } else {
            &&& r == Ok::<(u64, u64), TurbineError>((self.epoch, (self.epoch + 1) as u64))
            &&& after == self.rotated()
        }
    }

    /// What collecting an epoch does, and what it answers.
    pub open spec fn collects(
        self,
        after: ClockView,
        epoch: u64,
        r: Result<(), TurbineError>,
    ) -> bool {
        let i = self.serving(epoch);
        if i == self.arenas.len() {
            &&& r == Err::<(), TurbineError>(TurbineError::EpochNotFound(epoch))
            &&& after == self
        } else if self.arenas[i].outstanding() > 0 {
            &&& r == Err::<(), TurbineError>(
                TurbineError::EpochNotCollectable(epoch, self.arenas[i].outstanding() as usize),
            )
            &&& after == self
        } else {
            &&& r is Ok
            &&& after == self.with_arena(
                i,
                ArenaView { state: ArenaState::Collected, ..self.arenas[i] },
            )
        }
    }

    /// `r` are the retained epochs, oldest first.
    pub open spec fn retains(self, r: Seq<u64>) -> bool {
        &&& r.to_multiset() == self.retired_epochs(self.arenas.len() as int).to_multiset()
        &&& forall|i: int, j: int| 0 <= i < j < r.len() ==> r[i] <= r[j]
    }

    /// The arena found for an epoch serves it, and none before it does.
    pub proof fn serving_is_first(self, k: int, epoch: u64)
        requires
            0 <= k <= self.arenas.len(),
        ensures
            k <= self.serving_from(k, epoch) <= self.arenas.len(),
            self.serving_from(k, epoch) < self.arenas.len() ==> self.arenas[self.serving_from(
                k,
                epoch,
            )].epoch == epoch,
            forall|i: int|
                k <= i < self.serving_from(k, epoch) ==> (#[trigger] self.arenas[i]).epoch
                    != epoch,
        decreases self.arenas.len() - k,
    {
        if k < self.arenas.len() && self.arenas[k].epoch != epoch {
            self.serving_is_first(k + 1, epoch);
        }
    }

    /// How many rotations ago the arena at `i` was written last, if it was.
    pub open spec fn age(self, i: int) -> int {
        if i <= self.write {
            self.write - i
        } else {
            self.write - i + self.arenas.len()
        }
    }

    /// Every arena carries the epoch it was written in last; those that were
    /// never written carry 0.
    pub open spec fn in_step(self) -> bool {
        forall|i: int|
            0 <= i < self.arenas.len() ==> (#[trigger] self.arenas[i]).epoch == if self.age(i)
                <= self.epoch {
                self.epoch - self.age(i)
            } else {
                0
            }
    }

    /// The ring is filled from its start, round after round.
    pub open spec fn on_schedule(self) -> bool {
        self.write == self.epoch as int % self.arenas.len() as int
    }

    /// A fresh clock is sound and in step.
    pub proof fn initial_is_sound(regions: Seq<Region>)
        requires
            0 < regions.len() <= usize::MAX,
            forall|i: int|
                0 <= i < regions.len() ==> (#[trigger] regions[i]).bytes.len() <= usize::MAX,
        ensures
            ClockView::initial(regions).wf(),
            ClockView::initial(regions).in_step(),
            ClockView::initial(regions).on_schedule(),
    {
        vstd::arithmetic::div_mod::lemma_small_mod(0, regions.len());
    }

    /// Rotation keeps the clock sound and in step.
    pub proof fn rotation_keeps_step(self)
        requires
            self.wf(),
            self.in_step(),
            self.on_schedule(),
            self.epoch < u64::MAX,
        ensures
            self.rotated().wf(),
            self.rotated().in_step(),
            self.rotated().on_schedule(),
            self.retired().wf(),
            self.retired().in_step(),
            self.retired().on_schedule(),
    {
        let after = self.rotated();
        let n = self.arenas.len() as int;
        let q = self.epoch as int / n;
        vstd::arithmetic::div_mod::lemma_fundamental_div_mod(self.epoch as int, n);
        assert(n * q == q * n) by (nonlinear_arith);
        if self.write + 1 == n {
            assert((q + 1) * n == q * n + n) by (nonlinear_arith);
            vstd::arithmetic::div_mod::lemma_fundamental_div_mod_converse(
                self.epoch + 1,
                n,
                q + 1,
                0,
            );
        } else {
            vstd::arithmetic::div_mod::lemma_fundamental_div_mod_converse(
                self.epoch + 1,
                n,
                q,
                self.write + 1,
            );
        }
        assert forall|i: int| 0 <= i < after.arenas.len() implies (#[trigger] after.arenas[i]).epoch
            == if after.age(i) <= after.epoch {
            after.epoch - after.age(i)
        } else {
            0
        } by {
            if i != after.write {
                assert(after.arenas[i].epoch == self.arenas[i].epoch);
                assert(after.age(i) == self.age(i) + 1);
            }
        }
    }

    /// The ring remembers as many epochs as it has arenas: each of the latest
    /// ones is found in the arena that served it.
    pub proof fn recent_epochs_are_found(self, epoch: u64)
        requires
            self.wf(),
            self.in_step(),
            self.on_schedule(),
            epoch <= self.epoch,
            self.epoch - epoch < self.arenas.len(),
        ensures
            self.serving(epoch) == epoch as int % self.arenas.len() as int,
            0 <= self.serving(epoch) < self.arenas.len(),
            self.arenas[self.serving(epoch)].epoch == epoch,
            self.age(self.serving(epoch)) == self.epoch - epoch,
    {
        self.serving_is_first(0, epoch);
        let back = self.epoch - epoch;
        let n = self.arenas.len() as int;
        let q = self.epoch as int / n;
        vstd::arithmetic::div_mod::lemma_fundamental_div_mod(self.epoch as int, n);
        assert(n * q == q * n) by (nonlinear_arith);
        if back <= self.write {
            vstd::arithmetic::div_mod::lemma_fundamental_div_mod_converse(
                epoch as int,
                n,
                q,
                self.write - back,
            );
        } else {
            assert((q - 1) * n == q * n - n) by (nonlinear_arith);
            vstd::arithmetic::div_mod::lemma_fundamental_div_mod_converse(
                epoch as int,
                n,
                q - 1,
                self.write - back + n,
            );
        }
        if self.epoch < n {
            vstd::arithmetic::div_mod::lemma_small_mod(self.epoch as nat, n as nat);
        }
        let i = if back <= self.write {
            self.write - back
        } else {
            self.write - back + n
        };
        assert(self.age(i) == back);
        assert(self.arenas[i].epoch == epoch);
        let found = self.serving(epoch);
        assert(found <= i);
        assert(self.arenas[found].epoch == epoch);
        if self.age(found) > self.epoch {
            // An arena that was never written lies behind all that were.
            assert(epoch == 0);
            assert(self.write == self.epoch);
        }
    }

    /// An epoch that was overwritten, or has not come yet, is not found.
    pub proof fn other_epochs_are_not_found(self, epoch: u64)
        requires
            self.wf(),
            self.in_step(),
            epoch > self.epoch || (self.epoch - epoch >= self.arenas.len()),
        ensures
            self.serving(epoch) == self.arenas.len(),
    {
        self.serving_is_first(0, epoch);
        let found = self.serving(epoch);
        if found < self.arenas.len() {
            assert(self.arenas[found].epoch == epoch);
            assert(0 <= self.age(found) < self.arenas.len());
        }
    }

    /// The clock after one call, or after a change to one of its arenas.
    pub open spec fn stepped(self, step: ClockStep) -> Self {
        match step {
            ClockStep::Rotate => if self.arenas[self.next()].outstanding() > 0 {
                self.retired()
            } else {
                self.rotated()
            },
            ClockStep::TryCollect { epoch } => {
                let i = self.serving(epoch);
                if i == self.arenas.len() || self.arenas[i].outstanding() > 0 {
                    self
                } else {
                    self.with_arena(
                        i,
                        ArenaView { state: ArenaState::Collected, ..self.arenas[i] },
                    )
                }
            },
            ClockStep::Change { i, arena } => self.with_arena(i, arena),
        }
    }

    /// The step can be taken: there is an epoch to rotate to, and a change of an
    /// arena keeps it sound and leaves its epoch alone.
    pub open spec fn allows(self, step: ClockStep) -> bool {
        match step {
            ClockStep::Rotate => self.epoch < u64::MAX,
            ClockStep::TryCollect { .. } => true,
            ClockStep::Change { i, arena } => 0 <= i < self.arenas.len() && arena.wf()
                && arena.epoch == self.arenas[i].epoch,
        }
    }

    /// The clock after some steps.
    pub open spec fn run(self, steps: Seq<ClockStep>) -> Self
        decreases steps.len(),
    {
        if steps.len() == 0 {
            self
        } else {
            self.run(steps.drop_last()).stepped(steps.last())
        }
    }

    /// Each of some steps can be taken when its turn comes.
    pub open spec fn allows_all(self, steps: Seq<ClockStep>) -> bool
        decreases steps.len(),
    {
        steps.len() > 0 ==> self.allows_all(steps.drop_last()) && self.run(
            steps.drop_last(),
        ).allows(steps.last())
    }

    /// How many of some steps are rotations that succeed.
    pub open spec fn turns(self, steps: Seq<ClockStep>) -> nat
        decreases steps.len(),
    {
        if steps.len() == 0 {
            0
        } else {
            let before = self.run(steps.drop_last());
            self.turns(steps.drop_last()) + if steps.last() is Rotate
                && before.arenas[before.next()].outstanding() <= 0 {
                1nat
            } else {
                0nat
            }
        }
    }

    /// After any number of rotations that succeed, whatever else was called in
    /// between, the epoch is that number, and the written arena is the one at
    /// that number modulo the size of the ring.
    pub proof fn rotations_go_round(regions: Seq<Region>, steps: Seq<ClockStep>)
        requires
            0 < regions.len() <= usize::MAX,
            forall|i: int|
                0 <= i < regions.len() ==> (#[trigger] regions[i]).bytes.len() <= usize::MAX,
            ClockView::initial(regions).allows_all(steps),
        ensures
            ({
                let clock = ClockView::initial(regions).run(steps);
                let turns = ClockView::initial(regions).turns(steps);
                &&& clock.wf()
                &&& clock.in_step()
                &&& clock.on_schedule()
                &&& clock.arenas.len() == regions.len()
                &&& clock.epoch == turns
                &&& clock.write == turns as int % regions.len() as int
                &&& clock.arenas[clock.write].epoch == turns
            }),
        decreases steps.len(),
    {
        let start = ClockView::initial(regions);
        if steps.len() == 0 {
            ClockView::initial_is_sound(regions);
        } else {
            ClockView::rotations_go_round(regions, steps.drop_last());
            let before = start.run(steps.drop_last());
            match steps.last() {
                ClockStep::Rotate => {
                    before.rotation_keeps_step();
                },
                ClockStep::TryCollect { epoch } => {
                    before.serving_is_first(0, epoch);
                    before.change_keeps_step(
                        before.serving(epoch),
                        ArenaView {
                            state: ArenaState::Collected,
                            ..before.arenas[before.serving(epoch)]
                        },
                    );
                },
                ClockStep::Change { i, arena } => {
                    before.change_keeps_step(i, arena);
                },
            }
            let clock = start.run(steps);
            assert(clock.age(clock.write) == 0);
        }
    }

    /// Changing an arena but for its epoch keeps the clock sound and in step.
    proof fn change_keeps_step(self, i: int, arena: ArenaView)
        requires
            self.wf(),
            self.in_step(),
            self.on_schedule(),
        ensures
            0 <= i < self.arenas.len() && arena.wf() && arena.epoch == self.arenas[i].epoch ==> {
                &&& self.with_arena(i, arena).wf()
                &&& self.with_arena(i, arena).in_step()
                &&& self.with_arena(i, arena).on_schedule()
            },
    {
        if 0 <= i < self.arenas.len() && arena.wf() && arena.epoch == self.arenas[i].epoch {
            let after = self.with_arena(i, arena);
            assert forall|j: int| 0 <= j < after.arenas.len() implies (
            #[trigger] after.arenas[j]).epoch == if after.age(j) <= after.epoch {
                after.epoch - after.age(j)
            } else {
                0
            } by {
                assert(after.age(j) == self.age(j));
                assert(after.arenas[j].epoch == self.arenas[j].epoch);
            }
        }
    }

    /// After any number of rotations that succeed, whatever else was called in
    /// between, exactly the latest epochs can be found, as many as there are
    /// arenas, each in the arena at its number modulo the size of the ring.
    pub proof fn latest_epochs_are_found(
        regions: Seq<Region>,
        steps: Seq<ClockStep>,
        epoch: u64,
    )
        requires
            0 < regions.len() <= usize::MAX,
            forall|i: int|
                0 <= i < regions.len() ==> (#[trigger] regions[i]).bytes.len() <= usize::MAX,
            ClockView::initial(regions).allows_all(steps),
        ensures
            ({
                let clock = ClockView::initial(regions).run(steps);
                let turns = ClockView::initial(regions).turns(steps);
                let found = clock.serving(epoch);
                if epoch <= turns && turns - epoch < regions.len() {
                    &&& found == epoch as int % regions.len() as int
                    &&& 0 <= found < clock.arenas.len()
                    &&& clock.arenas[found].epoch == epoch
                } else {
                    found == clock.arenas.len()
                }
            }),
    {
        ClockView::rotations_go_round(regions, steps);
        let clock = ClockView::initial(regions).run(steps);
        if epoch <= clock.epoch && clock.epoch - epoch < regions.len() {
            clock.recent_epochs_are_found(epoch);
        } else {
            clock.other_epochs_are_not_found(epoch);
        }
    }

    /// Rotating never gives an arena to a new epoch while a lease on it is out,
    /// and leaves the counters and the memory of every other arena alone.
    pub proof fn rotation_spares_leases(self, i: int)
        requires
            self.wf(),
            self.arenas[self.next()].outstanding() == 0,
            0 <= i < self.arenas.len(),
            self.arenas[i].outstanding() > 0,
        ensures
            self.rotated().arenas[i] == (ArenaView {
                state: self.rotated().arenas[i].state,
                ..self.arenas[i]
            }),
    {
    }
}

/// The views of the arenas in a ring.
spec fn ring_view(arenas: Seq<Arena>) -> Seq<ArenaView> {
    arenas.map_values(|a: Arena| a@)
}

/// A fixed-size ring of arenas that rotates through epochs.
///
/// The clock maintains a monotonically increasing epoch counter. On each
/// `rotate()` call the current arena is retired (read-only) and the next arena
/// in the ring becomes writable for the new epoch. `close` hands its memory out;
/// dropping the clock leaves it mapped.
pub struct EpochClock {
    arenas: Vec<Arena>,
    epoch: u64,
    write_idx: usize,
}

impl View for EpochClock {
    type V = ClockView;

    closed spec fn view(&self) -> ClockView {
        ClockView {
            arenas: ring_view(self.arenas@),
            write: self.write_idx as int,
            epoch: self.epoch,
        }
    }
}

impl EpochClock {
    /// Create a new epoch clock with a ring of `initial_arenas` arenas, whose
    /// memory comes from `source`. If a mapping fails, what was mapped before it
    /// comes with the error, to be unmapped.
    pub fn new<F: Fn(usize) -> Result<&'static mut [u8], OsError>>(
        config: &PoolConfig,
        source: F,
    ) -> (r: Result<Self, SetupFailure>)
        requires
            config.valid() ==> crate::epoch::manager::maps(source, config.arena_size),
        ensures
            !config.valid() ==> (r matches Err(failure) && failure.mapped@.len() == 0 && (
            failure.error matches TurbineError::InvalidConfig(rule) && rule@
                == config.broken_rule())),
            config.valid() ==> match r {
                Ok(clock) => {
                    &&& clock@.wf()
                    &&& clock@.in_step()
                    &&& clock@.on_schedule()
                    &&& exists|regions: Seq<Region>|
                        crate::epoch::manager::all_mapped(
                            source,
                            config.arena_size,
                            crate::epoch::manager::region_bytes(regions),
                        ) && regions.len() == config.initial_arenas && clock@
                            == #[trigger] ClockView::initial(regions)
                },
                Err(failure) => {
                    &&& failure.error matches TurbineError::Mmap(os)
                    &&& call_ensures(source, (config.arena_size,), Err(os))
                    &&& failure.mapped@.len() < config.initial_arenas
                    &&& crate::epoch::manager::all_mapped(
                        source,
                        config.arena_size,
                        crate::epoch::manager::regions_view(failure.mapped@),
                    )
                },
            },
    {
        match config.validate() {
            Ok(_) => {},
            Err(e) => {
                return Err(SetupFailure { error: e, mapped: Vec::new() });
            },
        }
        let mut mapped: Vec<&'static mut [u8]> = match map_regions(
            &source,
            config.arena_size,
            config.initial_arenas,
        ) {
            Ok(mapped) => mapped,
            Err(failure) => {
                return Err(failure);
            },
        };
        let ghost bytes = crate::epoch::manager::regions_view(mapped@);
        let ghost mut regions: Seq<Region> = Seq::empty();
        let mut arenas: Vec<Arena> = Vec::with_capacity(config.initial_arenas);
        let mut i: usize = 0;
        while i < config.initial_arenas
            invariant
                i <= config.initial_arenas,
                bytes.len() == config.initial_arenas,
                mapped@.len() == config.initial_arenas - i,
                crate::epoch::manager::regions_view(mapped@) == bytes.skip(i as int),
                regions.len() == i,
                forall|j: int| 0 <= j < i ==> (#[trigger] regions[j]).bytes == bytes[j],
                arenas@.len() == i,
                forall|j: int| 0 <= j < i ==> (#[trigger] arenas@[j])@ == if j == 0 {
                    ArenaView::unused(regions[j]).recycled(0)
                } else {
                    ArenaView::unused(regions[j])
                },
            decreases config.initial_arenas - i,
        {
            let ghost left = mapped@;
            let region = mapped.remove(0);
            proof {
                assert(crate::epoch::manager::regions_view(left)[0] == region@);
                assert(region@ == bytes[i as int]);
                assert(crate::epoch::manager::regions_view(mapped@) =~= bytes.skip(
                    i as int,
                ).skip(1));
                assert(bytes.skip(i as int).skip(1) =~= bytes.skip(i + 1));
            }
            let mut arena = Arena::over(region);
            proof {
                regions = regions.push(Region { id: arena@.id, bytes: bytes[i as int] });
            }
            if i == 0 {
                arena.set_epoch(0);
                arena.reset();
            }
            arenas.push(arena);
            i = i + 1;
        }
        let clock = Self { arenas, epoch: 0, write_idx: 0 };
        proof {
            assert(crate::epoch::manager::region_bytes(regions) =~= bytes);
            assert forall|j: int| 0 <= j < regions.len() implies (#[trigger] regions[j]).bytes.len()
                == config.arena_size by {
                assert(crate::epoch::manager::is_mapped(source, config.arena_size, bytes[j]));
            }
            assert(clock@ =~= ClockView::initial(regions));
            ClockView::initial_is_sound(regions);
        }
        Ok(clock)
    }

    /// Ends the clock: the memory of every arena, in ring order, to be unmapped,
    /// each with the number of leases that were still out.
    pub fn close(self) -> (r: Vec<(&'static mut [u8], usize)>)
        requires
            self@.wf(),
        ensures
            r@.len() == self@.arenas.len(),
            forall|i: int|
                0 <= i < r@.len() ==> (#[trigger] r@[i]).0@ == self@.arenas[i].bytes && r@[i].1
                    == self@.arenas[i].outstanding(),
    {
        let ghost v = self@;
        let mut arenas = self.arenas;
        let ghost all = arenas@;
        let mut out: Vec<(&'static mut [u8], usize)> = Vec::with_capacity(arenas.len());
        proof {
            assert(all.skip(0) =~= all);
        }
        while arenas.len() > 0
            invariant
                v.wf(),
                v.arenas == ring_view(all),
                out@.len() + arenas@.len() == all.len(),
                arenas@ == all.skip(out@.len() as int),
                forall|i: int|
                    0 <= i < out@.len() ==> (#[trigger] out@[i]).0@ == v.arenas[i].bytes
                        && out@[i].1 == v.arenas[i].outstanding(),
            decreases arenas@.len(),
        {
            let ghost done = out@.len() as int;
            let arena = arenas.remove(0);
            proof {
                assert(v.arenas[done] == arena@);
                assert(v.arenas[done].wf());
                assert(arenas@ =~= all.skip(done + 1));
            }
            out.push(arena.close());
        }
        out
    }

    /// The current epoch number.
    pub fn epoch(&self) -> (r: u64)
        ensures
            r == self@.epoch,
    {
        self.epoch
    }

    /// Reference to the currently writable arena.
    pub fn current_arena(&self) -> (r: &Arena)
        requires
            self@.wf(),
        ensures
            r@ == self@.arenas[self@.write],
    {
        &self.arenas[self.write_idx]
    }

    /// The currently writable arena, to change.
    pub fn current_arena_mut(&mut self) -> (r: &mut Arena)
        requires
            old(self)@.wf(),
        ensures
            r@ == old(self)@.arenas[old(self)@.write],
            final(self)@ == old(self)@.with_arena(old(self)@.write, final(r)@),
    {
        let ghost before = self.arenas@;
        let ghost v = self@;
        proof {
            assert forall|a: Arena| ring_view(before.update(v.write, a))
                == #[trigger] v.with_arena(v.write, a@).arenas by {
                assert(ring_view(before.update(v.write, a)) =~= v.with_arena(v.write, a@).arenas);
            }
        }
        &mut self.arenas[self.write_idx]
    }

    /// Index of the currently writable arena in the ring.
    pub fn current_arena_idx(&self) -> (r: usize)
        ensures
            r == self@.write,
    {
        self.write_idx
    }

    /// Number of arenas in the ring.
    pub fn arena_count(&self) -> (r: usize)
        ensures
            r == self@.arenas.len(),
    {
        self.arenas.len()
    }

    /// Rotate to a new epoch.
    ///
    /// - Retires the current arena.
    /// - Returns `Err` if the next arena still has outstanding leases
    ///   (preventing data corruption from recycling in-use memory). The clock
    ///   stays on the current arena then, which is already marked as retired.
    /// - Otherwise advances the write index to the next arena in the ring and
    ///   returns the retired and the new epoch.
    pub fn rotate(&mut self) -> (r: Result<(u64, u64), TurbineError>)
        requires
            old(self)@.wf(),
            old(self)@.epoch < u64::MAX,
        ensures
            final(self)@.wf(),
            ({
                let next = old(self)@.arenas[old(self)@.next()];
                if next.outstanding() > 0 {
                    &&& r == Err::<(u64, u64), TurbineError>(
                        TurbineError::EpochNotCollectable(
                            next.epoch,
                            next.outstanding() as usize,
                        ),
                    )
                    &&& final(self)@ == old(self)@.retired()
                } else {
                    &&& r == Ok::<(u64, u64), TurbineError>(
                        (old(self)@.epoch, (old(self)@.epoch + 1) as u64),
                    )
                    &&& final(self)@ == old(self)@.rotated()
                }
            }),
            old(self)@.turns_to(final(self)@, r),
    {
        let ghost v = self@;
        let retired_epoch: u64 = self.epoch;
        let new_epoch: u64 = retired_epoch + 1;
        let current_idx: usize = self.write_idx;
        proof {
            assert(ring_view(self.arenas@)[current_idx as int] == v.arenas[current_idx as int]);
        }
        self.arenas[current_idx].set_state(ArenaState::Retired);
        proof {
            assert(self@ =~= v.retired());
        }
        let next_idx: usize = if current_idx + 1 == self.arenas.len() {
            0
        } else {
            current_idx + 1
        };
        let ghost mid = self.arenas@;
        proof {
            assert(next_idx == v.next());
            assert(mid[next_idx as int]@ == v.retired().arenas[next_idx as int]);
            assert(v.arenas[next_idx as int].wf());
        }
        if self.arenas[next_idx].lease_count() > 0 {
            let epoch: u64 = self.arenas[next_idx].epoch();
            let leases: usize = self.arenas[next_idx].lease_count();
            return Err(TurbineError::EpochNotCollectable(epoch, leases));
        }
        let next: &mut Arena = &mut self.arenas[next_idx];
        next.reset();
        next.set_epoch(new_epoch);
        self.write_idx = next_idx;
        self.epoch = new_epoch;
        proof {
            assert(self@ =~= v.rotated());
        }
        Ok((retired_epoch, new_epoch))
    }

    /// The ring position of the arena that served a given epoch.
    fn find_epoch(&self, epoch: u64) -> (r: Option<usize>)
        ensures
            match r {
                Some(at) => at == self@.serving(epoch) && at < self@.arenas.len(),
                None => self@.serving(epoch) == self@.arenas.len(),
            },
    {
        let mut i: usize = 0;
        while i < self.arenas.len()
            invariant
                i <= self.arenas@.len(),
                self@.serving(epoch) == self@.serving_from(i as int, epoch),
            decreases self.arenas@.len() - i,
        {
            proof {
                assert(ring_view(self.arenas@)[i as int] == self.arenas@[i as int]@);
            }
            if self.arenas[i].epoch() == epoch {
                return Some(i);
            }
            i = i + 1;
        }
        None
    }

    /// Try to collect (reclaim) the arena that served `epoch`.
    ///
    /// Returns `Ok(())` if the arena had zero leases and was marked Collected,
    /// or an error if it still has outstanding leases.
    pub fn try_collect(&mut self, epoch: u64) -> (r: Result<(), TurbineError>)
        requires
            old(self)@.wf(),
        ensures
            final(self)@.wf(),
            ({
                let i = old(self)@.serving(epoch);
                if i == old(self)@.arenas.len() {
                    &&& r == Err::<(), TurbineError>(TurbineError::EpochNotFound(epoch))
                    &&& final(self)@ == old(self)@
                } else if old(self)@.arenas[i].outstanding() > 0 {
                    &&& r == Err::<(), TurbineError>(
                        TurbineError::EpochNotCollectable(
                            epoch,
                            old(self)@.arenas[i].outstanding() as usize,
                        ),
                    )
                    &&& final(self)@ == old(self)@
                } else {
                    &&& r is Ok
                    &&& final(self)@ == old(self)@.with_arena(
                        i,
                        ArenaView { state: ArenaState::Collected, ..old(self)@.arenas[i] },
                    )
                }
            }),
            old(self)@.collects(final(self)@, epoch, r),
    {
        let ghost v = self@;
        let at: usize = match self.find_epoch(epoch) {
            Some(at) => at,
            None => {
                return Err(TurbineError::EpochNotFound(epoch));
            },
        };
        proof {
            v.serving_is_first(0, epoch);
            assert(v.arenas[at as int] == self.arenas@[at as int]@);
            assert(v.arenas[at as int].wf());
        }
        if self.arenas[at].lease_count() > 0 {
            let leases: usize = self.arenas[at].lease_count();
            return Err(TurbineError::EpochNotCollectable(epoch, leases));
        }
        self.arenas[at].set_state(ArenaState::Collected);
        proof {
            assert(self@ =~= v.with_arena(
                at as int,
                ArenaView { state: ArenaState::Collected, ..v.arenas[at as int] },
            ));
        }
        Ok(())
    }

    /// Look up the arena that served a given epoch.
    ///
    /// Only arenas currently in the ring are searchable.
    pub fn arena_for_epoch(&self, epoch: u64) -> (r: Result<&Arena, TurbineError>)
        ensures
            if self@.serving(epoch) == self@.arenas.len() {
                r == Err::<&Arena, TurbineError>(TurbineError::EpochNotFound(epoch))
            } else {
                r matches Ok(arena) && arena@ == self@.arenas[self@.serving(epoch)]
            },
    {
        match self.find_epoch(epoch) {
            Some(at) => Ok(&self.arenas[at]),
            None => Err(TurbineError::EpochNotFound(epoch)),
        }
    }

    /// Look up the arena that served a given epoch, to change it.
    pub fn arena_for_epoch_mut(&mut self, epoch: u64) -> (r: Result<&mut Arena, TurbineError>)
        ensures
            if old(self)@.serving(epoch) == old(self)@.arenas.len() {
                &&& r matches Err(e)
                &&& e == TurbineError::EpochNotFound(epoch)
                &&& final(self)@ == old(self)@
            } else {
                &&& r matches Ok(arena)
                &&& arena@ == old(self)@.arenas[old(self)@.serving(epoch)]
                &&& final(self)@ == old(self)@.with_arena(
                    old(self)@.serving(epoch),
                    final(arena)@,
                )
            },
    {
        let ghost before = self.arenas@;
        let ghost v = self@;
        match self.find_epoch(epoch) {
            Some(at) => {
                proof {
                    assert forall|a: Arena| ring_view(before.update(at as int, a))
                        == #[trigger] v.with_arena(at as int, a@).arenas by {
                        assert(ring_view(before.update(at as int, a)) =~= v.with_arena(
                            at as int,
                            a@,
                        ).arenas);
                    }
                }
                Ok(&mut self.arenas[at])
            },
            None => Err(TurbineError::EpochNotFound(epoch)),
        }
    }

    /// Bounds-checked direct access to an arena by index.
    pub fn arena_at(&self, idx: usize) -> (r: Option<&Arena>)
        ensures
            if idx < self@.arenas.len() {
                r matches Some(arena) && arena@ == self@.arenas[idx as int]
            } else {
                r is None
            },
    {
        if idx < self.arenas.len() {
            Some(&self.arenas[idx])
        } else {
            None
        }
    }

    /// All arenas in the ring (for io_uring registration).
    pub fn arenas(&self) -> (r: &[Arena])
        ensures
            r@.map_values(|a: Arena| a@) == self@.arenas,
    {
        self.arenas.as_slice()
    }

    /// The epochs of the retired (non-collected) arenas, oldest first.
    pub fn retained_epochs(&self) -> (r: Vec<u64>)
        ensures
            r@.to_multiset() == self@.retired_epochs(self@.arenas.len() as int).to_multiset(),
            forall|i: int, j: int| 0 <= i < j < r@.len() ==> r@[i] <= r@[j],
            self@.retains(r@),
            forall|epoch: u64| #[trigger]
                r@.contains(epoch) <==> exists|i: int|
                    0 <= i < self@.arenas.len() && (#[trigger] self@.arenas[i]).epoch == epoch
                        && self@.arenas[i].state == ArenaState::Retired,
    {
        let mut out: Vec<u64> = Vec::new();
        let mut k: usize = 0;
        proof {
            assert(out@ =~= self@.retired_epochs(0));
        }
        while k < self.arenas.len()
            invariant
                k <= self.arenas@.len(),
                out@.to_multiset() == self@.retired_epochs(k as int).to_multiset(),
                forall|i: int, j: int| 0 <= i < j < out@.len() ==> out@[i] <= out@[j],
            decreases self.arenas@.len() - k,
        {
            proof {
                assert(ring_view(self.arenas@)[k as int] == self.arenas@[k as int]@);
            }
            if self.arenas[k].state() == ArenaState::Retired {
                let epoch: u64 = self.arenas[k].epoch();
                proof {
                    vstd::seq_lib::to_multiset_build(self@.retired_epochs(k as int), epoch);
                }
                insert_sorted(&mut out, epoch);
            }
            k = k + 1;
        }
        proof {
            assert forall|epoch: u64| #[trigger] out@.contains(epoch) <==> exists|i: int|
                0 <= i < self@.arenas.len() && (#[trigger] self@.arenas[i]).epoch == epoch
                    && self@.arenas[i].state == ArenaState::Retired by {
                self@.retained_epochs_are_the_retired_ones(out@, epoch);
            }
        }
        out
    }
}

/// Puts `x` where it belongs in an ascending list.
fn insert_sorted(list: &mut Vec<u64>, x: u64)
    requires
        forall|i: int, j: int| 0 <= i < j < old(list)@.len() ==> old(list)@[i] <= old(list)@[j],
    ensures
        final(list)@.to_multiset() == old(list)@.to_multiset().insert(x),
        forall|i: int, j: int| 0 <= i < j < final(list)@.len() ==> final(list)@[i]
            <= final(list)@[j],
{
    let ghost before = list@;
    let mut at: usize = list.len();
    while at > 0 && list[at - 1] > x
        invariant
            list@ == before,
            at <= before.len(),
            forall|i: int| at <= i < before.len() ==> #[trigger] before[i] > x,
        decreases at,
    {
        at = at - 1;
    }
    list.insert(at, x);
    proof {
        list@.to_multiset_ensures();
        assert(list@.remove(at as int) =~= before);
        assert(list@[at as int] == x);
        assert(list@.contains(x));
        assert(list@.to_multiset() =~= before.to_multiset().insert(x));
        assert forall|i: int, j: int| 0 <= i < j < list@.len() implies list@[i] <= list@[j] by {
            if i < at && j >= at {
                if j == at {
                    assert(before[i] <= before[at - 1]);
                } else {
                    assert(before[j - 1] > x);
                    assert(before[at - 1] <= x);
                    assert(i < at - 1 ==> before[i] <= before[at - 1]);
                }
            }
        }
    }
}

} // verus!
