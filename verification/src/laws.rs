//! What holds of the pool as a whole, across its operations.
use vstd::prelude::*;

use crate::buffer::leased::{Lease, LeasedBuffer};
use crate::buffer::ledger::PoolView;
use crate::epoch::arena::{ArenaState, ArenaView};
use crate::epoch::model::ManagerView;
use crate::error::{OsError, TurbineError};

verus! {

impl PoolView {
    /// `l` is still out in `after`, on the same bytes of an arena that still
    /// serves its epoch, and the bytes are what they were.
    pub open spec fn keeps(self, after: PoolView, l: Lease) -> bool {
        &&& after.leases.contains(l)
        &&& after.valid(l)
        &&& after.bytes_of(l) == self.bytes_of(l)
    }

    /// Leasing does not disturb a lease that is out.
    pub proof fn leases_survive_leasing(self, len: nat, l: Lease)
        requires
            self.wf(),
            self.leases.contains(l),
            len <= self.manager.current().available(),
            self.manager.current().acquired < usize::MAX,
        ensures
            self.keeps(self.leased(len), l),
    {
        self.leased_is_sound(len);
        assert(self.valid(l));
        assert(self.leased(len).leases.contains(l));
        assert(self.manager.live(self.manager.write));
    }

    /// Collecting does not disturb a lease that is out.
    pub proof fn leases_survive_collecting(self, l: Lease)
        requires
            self.wf(),
            self.leases.contains(l),
        ensures
            self.keeps(self.collected(), l),
    {
        self.collected_is_sound();
        assert(self.valid(l));
        assert(self.collected().leases.contains(l));
        assert(self.manager.live(l.arena));
    }

    /// Shrinking does not disturb a lease that is out: no arena with a lease is
    /// unmapped.
    pub proof fn leases_survive_shrinking(self, l: Lease)
        requires
            self.wf(),
            self.leases.contains(l),
        ensures
            self.keeps(self.shrunk(), l),
    {
        self.shrunk_is_sound();
        assert(self.valid(l));
        self.counted(l.arena);
        assert(self.shrunk().leases.contains(l));
        assert(self.shrunk().manager.live(l.arena));
    }

    /// Rotating does not disturb a lease that is out, whether it succeeds or
    /// fails, and whichever arena it moves on to: no arena with a lease is
    /// recycled.
    pub proof fn leases_survive_rotating<F: Fn(usize) -> Result<&'static mut [u8], OsError>>(
        self,
        after: PoolView,
        source: F,
        r: Result<(), TurbineError>,
        l: Lease,
    )
        requires
            self.wf(),
            after.wf(),
            self.leases.contains(l),
            self.manager.epoch < u64::MAX,
            crate::buffer::pool::pool_rotates(self, after, source, r),
        ensures
            self.keeps(after, l),
    {
        assert(self.valid(l));
        self.counted(l.arena);
        let mid = self.manager.ready();
        assert(self.manager.live(l.arena) && self.manager.live(self.manager.write));
        if mid.free.len() > 0 {
            self.ready_is_sound();
            let ready = PoolView { manager: mid, ..self };
            ready.counted(l.arena);
            assert(mid.idle(mid.free[mid.free.len() - 1]));
            assert(l.arena != mid.free.last()) by {
                assert(ready.leases.contains(l));
                assert(ready.valid(l));
            }
            if self.manager.free.len() == 0 {
                self.leases_survive_collecting(l);
                assert(self.collected().manager == mid);
            }
            assert(after.leases.contains(l));
        } else {
            self.manager.gap_is_free(0);
            assert(after.leases.contains(l));
        }
    }

    /// Giving one lease back does not disturb another.
    pub proof fn leases_survive_giving_back(self, gone: Lease, l: Lease)
        requires
            self.wf(),
            self.leases.contains(gone),
            self.leases.contains(l),
            l != gone,
        ensures
            self.keeps(self.given_back(gone), l),
            self.keeps(self.returned(gone), l),
    {
        self.giving_back_is_sound(gone);
        assert(self.valid(l));
        assert(self.given_back(gone).leases.contains(l));
        assert(self.returned(gone).leases.contains(l));
    }

    /// Reclaiming an epoch does not disturb a lease that is out.
    pub proof fn leases_survive_reclaiming(self, i: int, epoch: u64, l: Lease)
        requires
            self.wf(),
            self.manager.live(i),
            self.leases.contains(l),
        ensures
            self.keeps(self.reclaimed(i, epoch), l),
    {
        self.reclaiming_is_sound(i, epoch);
        assert(self.valid(l));
        assert(self.reclaimed(i, epoch).leases.contains(l));
    }

    /// A read gives back what was written last.
    pub proof fn reads_see_writes(self, l: Lease, data: Seq<u8>)
        requires
            self.wf(),
            self.leases.contains(l),
            data.len() == l.len,
        ensures
            self.written(l, data).leases.contains(l),
            self.written(l, data).bytes_of(l) == data,
    {
        assert(self.valid(l));
        assert(self.manager.arena(l.arena).wf());
        assert(self.written(l, data).bytes_of(l) =~= data);
    }

    /// Writing through one lease does not disturb another.
    pub proof fn writes_stay_inside(self, l: Lease, data: Seq<u8>, other: Lease)
        requires
            self.wf(),
            self.leases.contains(l),
            self.leases.contains(other),
            other != l,
            data.len() == l.len,
        ensures
            self.keeps(self.written(l, data), other),
    {
        self.writing_is_sound(l, data);
        assert(self.valid(l));
        assert(self.valid(other));
        assert(l.apart(other));
        assert(self.manager.arena(l.arena).wf());
        assert(self.written(l, data).leases.contains(other));
        assert(self.written(l, data).bytes_of(other) =~= self.bytes_of(other));
    }

    /// A new lease shares no byte with any lease that is out, and none of them
    /// has its number.
    pub proof fn new_lease_is_apart(self, len: nat, l: Lease)
        requires
            self.wf(),
            self.leases.contains(l),
        ensures
            self.next_lease(len).apart(l),
            self.next_lease(len).number != l.number,
    {
        assert(self.valid(l));
    }

    /// Two leases in a row from the same arena are adjacent.
    pub proof fn leases_are_contiguous(self, first: nat, second: nat)
        requires
            self.wf(),
            first + second <= self.manager.current().available(),
        ensures
            self.leased(first).next_lease(second).arena == self.next_lease(first).arena,
            self.leased(first).next_lease(second).start == self.next_lease(first).end(),
            self.leased(first).manager.current().available()
                == self.manager.current().available() - first,
    {
        assert(self.manager.live(self.manager.write));
    }

    /// Giving a lease back right away leaves only the used bytes behind: the
    /// ledger and the count of leases are what they were.
    pub proof fn giving_back_undoes_leasing(self, len: nat)
        requires
            self.wf(),
            len <= self.manager.current().available(),
            self.manager.current().acquired < usize::MAX,
        ensures
            ({
                let after = self.leased(len).given_back(self.next_lease(len));
                &&& after.leases == self.leases
                &&& after.manager.current().outstanding() == self.manager.current().outstanding()
                &&& after.manager.current().used == self.manager.current().used + len
            }),
    {
        assert(self.manager.live(self.manager.write));
        assert(!self.leases.contains(self.next_lease(len))) by {
            if self.leases.contains(self.next_lease(len)) {
                assert(self.valid(self.next_lease(len)));
            }
        }
        assert(self.leased(len).given_back(self.next_lease(len)).leases =~= self.leases);
    }

    /// An arena is given to a new epoch only when all leases of its old one are
    /// back, so a lease never reads another epoch's bytes.
    pub proof fn recycled_arenas_have_no_lease<F: Fn(usize) -> Result<&'static mut [u8], OsError>>(
        self,
        after: PoolView,
        source: F,
        r: Result<(), TurbineError>,
        i: int,
    )
        requires
            self.wf(),
            after.wf(),
            self.manager.epoch < u64::MAX,
            crate::buffer::pool::pool_rotates(self, after, source, r),
            self.manager.live(i),
            after.manager.live(i),
            after.manager.arena(i).epoch != self.manager.arena(i).epoch,
        ensures
            self.manager.idle(i),
            forall|l: Lease| #[trigger] self.leases.contains(l) ==> l.arena != i,
    {
        assert forall|l: Lease| #[trigger] self.leases.contains(l) implies l.arena != i by {
            if l.arena == i {
                self.leases_survive_rotating(after, source, r, l);
                assert(self.valid(l));
            }
        }
        self.counted(i);
        assert(self.at(i) =~= Set::<Lease>::empty());
    }

    /// A lease taken in an epoch that has passed keeps its arena in the drain
    /// queue.
    pub proof fn past_leases_drain(self, l: Lease)
        requires
            self.wf(),
            self.leases.contains(l),
            l.epoch < self.manager.epoch,
        ensures
            self.manager.draining.contains(l.arena),
    {
        assert(self.valid(l));
        self.counted(l.arena);
        assert(self.manager.live(l.arena));
        if self.manager.free.contains(l.arena) {
            let k = choose|k: int|
                0 <= k < self.manager.free.len() && self.manager.free[k] == l.arena;
            assert(self.manager.idle(self.manager.free[k]));
        }
    }

    /// Once all leases are back, one collection empties the drain queue.
    pub proof fn everything_back_is_collected(self)
        requires
            self.wf(),
            self.leases == Set::<Lease>::empty(),
        ensures
            self.collected().manager.draining.len() == 0,
            self.manager.swept().len() == self.manager.draining.len(),
            self.collected().manager.free.len() == self.manager.free.len()
                + self.manager.draining.len(),
    {
        assert forall|i: int| #[trigger] self.manager.live(i) implies self.manager.idle(i) by {
            assert(self.at(i) =~= Set::<Lease>::empty());
        }
        self.manager.idle_queue_is_collected();
    }

    /// An arena whose leases are all back waits at most three epochs for its
    /// collection, whoever else still holds leases.
    pub proof fn idle_arenas_do_not_starve(self, k: int)
        requires
            self.wf(),
            0 <= k < self.manager.draining.len(),
            self.manager.idle(self.manager.draining[k]),
            self.manager.arena(self.manager.draining[k]).epoch + 3 <= self.manager.epoch,
        ensures
            self.manager.swept().contains(self.manager.draining[k]),
            self.collected().manager.free.contains(self.manager.draining[k]),
    {
        let v = self.manager;
        let i = v.draining[k];
        v.stop_in_range(0);
        assert(v.stop_from(0) > k) by {
            let stop = v.stop_from(0);
            if stop <= k {
                assert(v.blocks(v.draining[stop]));
                assert(stop < k);
                assert(v.arena(v.draining[stop]).epoch < v.arena(v.draining[k]).epoch);
            }
        }
        assert(v.reached()[k] == i);
        crate::epoch::model::filter_is_part(v.reached(), v.is_idle(), i);
        let n = choose|n: int| 0 <= n < v.swept().len() && v.swept()[n] == i;
        assert(self.collected().manager.free[v.free.len() + n] == i);
    }

    /// Reclaiming an epoch succeeds exactly if the arena found for it has no
    /// lease out in the ledger.
    pub proof fn reclaiming_waits_for_leases(self, epoch: u64)
        requires
            self.wf(),
            self.manager.serving(epoch) < self.manager.slab.len(),
        ensures
            self.manager.arena(self.manager.serving(epoch)).outstanding() == 0
                <==> forall|l: Lease| #[trigger]
                self.leases.contains(l) ==> l.arena != self.manager.serving(epoch),
    {
        let i = self.manager.serving(epoch);
        self.manager.serving_is_first(0, epoch);
        self.counted(i);
        if forall|l: Lease| #[trigger] self.leases.contains(l) ==> l.arena != i {
            assert(self.at(i) =~= Set::<Lease>::empty());
        }
    }

    /// After a registration that found a slot for every live arena, the ring was
    /// told about each of them at the very slot that its buffers carry.
    pub proof fn ring_and_buffers_agree(self, i: int)
        requires
            self.wf(),
            self.manager.live_from(0).len() <= self.reg.slots.room(),
            self.manager.live(i),
        ensures
            ({
                let list = self.manager.live_from(0);
                let after = PoolView { reg: self.reg.placed_all(list), ..self };
                let table = self.reg.table_of(
                    list,
                    crate::ring::registration::empty_table(self.reg.slots.capacity),
                );
                &&& after.reg.held.contains_key(i)
                &&& 0 <= after.reg.held[i] < table.len()
                &&& table[after.reg.held[i]] == Some(i)
                &&& i == self.manager.write ==> after.current_slot() == after.reg.held[i]
            }),
    {
        let list = self.manager.live_from(0);
        self.manager.live_list_is_exact(0);
        assert forall|k: int| 0 <= k < list.len() implies 0 <= #[trigger] list[k]
            < usize::MAX by {
            assert(list.contains(list[k]));
            assert(self.manager.live(list[k]));
        }
        self.reg.table_matches_slots(list);
        assert(list.contains(i));
        let k = choose|k: int| 0 <= k < list.len() && list[k] == i;
        assert(list[k] == i);
    }

    /// Pre-registering gives every live arena a slot, as long as there are as
    /// many left as live arenas without one, and takes none away.
    pub proof fn pre_registering_covers_all(self, i: int)
        requires
            self.wf(),
            self.reg.missing(self.manager.live_from(0)) <= self.reg.slots.room(),
        ensures
            ({
                let after = self.reg.pre_placed_all(self.manager.live_from(0));
                &&& self.manager.live(i) ==> after.held.contains_key(i)
                &&& self.reg.held.contains_key(i) ==> after.held.contains_key(i) && after.held[i]
                    == self.reg.held[i]
            }),
    {
        let list = self.manager.live_from(0);
        self.manager.live_list_is_exact(0);
        assert forall|k: int| 0 <= k < list.len() implies 0 <= #[trigger] list[k]
            < usize::MAX by {
            assert(list.contains(list[k]));
            assert(self.manager.live(list[k]));
        }
        self.reg.pre_placed_all_covers(list);
        if self.manager.live(i) {
            assert(list.contains(i));
            let k = choose|k: int| 0 <= k < list.len() && list[k] == i;
            assert(list[k] == i);
        }
    }

    /// A lease of an arena that the pool does not have is not in its ledger, be
    /// it from another pool or from an arena of its own: it can be neither read
    /// nor given back there.
    pub proof fn foreign_leases_are_kept_out(self, l: Lease)
        requires
            self.wf(),
            forall|i: int| #[trigger] self.manager.live(i) ==> self.manager.arena(i).id != l.home,
        ensures
            !self.leases.contains(l),
    {
        if self.leases.contains(l) {
            assert(self.valid(l));
        }
    }

    /// When a rotation sweeps the drain queue, the kernel may take back the idle
    /// pages of every arena that this frees, also of the one that is reused.
    pub proof fn rotations_advise_every_swept_arena<
        F: Fn(usize) -> Result<&'static mut [u8], OsError>,
    >(self, after: PoolView, source: F, i: int)
        requires
            self.wf(),
            self.manager.free.len() == 0,
            self.manager.swept().contains(i),
            self.manager.advice_at(i) is Some,
            crate::buffer::pool::pool_rotates(self, after, source, Ok::<(), TurbineError>(())),
        ensures
            after.manager.due_advice().contains(self.manager.advice_at(i)->0),
    {
        let v = self.manager;
        let mid = v.collected();
        let entry = v.advice_at(i)->0;
        v.sweeps_advise_every_arena(i);
        v.sweep_splits();
        assert(v.draining.contains(i));
        let d = choose|d: int| 0 <= d < v.draining.len() && v.draining[d] == i;
        assert(v.live(v.draining[d]) && v.draining[d] != v.write);
        v.arena(i).idle_pages_are_unused(v.page_size as int);
        assert(v.swept().len() > 0);
        assert(mid.free.len() > 0 && v.ready() == mid);
        assert(after.manager == mid.popped().activated(mid.free.last()));
        assert(mid.live(i) && mid.arena(i).used == v.arena(i).used);
        v.collected_is_sound();
        assert(mid.live(mid.free[mid.free.len() - 1]) && mid.live(mid.write));
        assert(after.manager.untouched(entry));
        let k = choose|k: int| 0 <= k < mid.advice.len() && mid.advice[k] == entry;
        after.manager.advice.lemma_filter_contains(after.manager.is_untouched(), k);
    }

    /// A failed rotation changes nothing.
    pub proof fn failed_rotation_changes_nothing<
        F: Fn(usize) -> Result<&'static mut [u8], OsError>,
    >(self, after: PoolView, source: F, r: Result<(), TurbineError>)
        requires
            crate::buffer::pool::pool_rotates(self, after, source, r),
            r is Err,
        ensures
            after == self,
    {
    }

    /// A rotation does not wait for leases: while a free arena is there, or one
    /// can be swept, or more may be mapped, it fails only if mapping fails.
    pub proof fn rotation_never_waits<F: Fn(usize) -> Result<&'static mut [u8], OsError>>(
        self,
        after: PoolView,
        source: F,
        r: Result<(), TurbineError>,
    )
        requires
            crate::buffer::pool::pool_rotates(self, after, source, r),
        ensures
            self.manager.free.len() > 0 || self.manager.swept().len() > 0 ==> r is Ok,
            r is Err ==> self.manager.at_limit() || r->Err_0 is Mmap,
    {
    }

    /// A rotation leads to the next epoch, and to an arena that can be written
    /// from its first byte to its last.
    pub proof fn rotation_leads_to_next_epoch<
        F: Fn(usize) -> Result<&'static mut [u8], OsError>,
    >(self, after: PoolView, source: F)
        requires
            self.wf(),
            after.wf(),
            self.manager.epoch < u64::MAX,
            crate::buffer::pool::pool_rotates(self, after, source, Ok::<(), TurbineError>(())),
        ensures
            after.manager.epoch == self.manager.epoch + 1,
            after.manager.live(after.manager.write),
            after.manager.current().state == ArenaState::Writable,
            after.manager.current().used == 0,
            after.manager.write != self.manager.write,
            after.manager.draining.last() == self.manager.write,
            after.manager.arena(self.manager.write) == (ArenaView {
                state: ArenaState::Retired,
                ..self.manager.current()
            }),
    {
        assert(after.manager.live(after.manager.write));
        let mid = self.manager.ready();
        assert(self.manager.live(self.manager.write));
        if mid.free.len() > 0 {
            self.ready_is_sound();
            self.manager.collected_is_sound();
            assert(mid.live(mid.free[mid.free.len() - 1]));
        } else {
            self.manager.gap_is_free(0);
        }
    }

    /// A request that fits an arena is refused only if there is no next arena.
    pub proof fn fitting_leases_succeed<F: Fn(usize) -> Result<&'static mut [u8], OsError>>(
        self,
        after: PoolView,
        source: F,
        len: usize,
        r: Result<LeasedBuffer, TurbineError>,
    )
        requires
            crate::buffer::pool::lease_rotates(self, after, source, len, r),
            len <= self.manager.arena_size,
        ensures
            self.manager.free.len() > 0 || self.manager.swept().len() > 0 ==> r is Ok,
            r is Err ==> after == self && (self.manager.at_limit() || r->Err_0 is Mmap),
    {
    }

    /// No rotation takes the pool beyond its limit of arenas.
    pub proof fn arena_limit_is_kept<F: Fn(usize) -> Result<&'static mut [u8], OsError>>(
        self,
        after: PoolView,
        source: F,
        r: Result<(), TurbineError>,
    )
        requires
            self.wf(),
            after.wf(),
            self.manager.epoch < u64::MAX,
            crate::buffer::pool::pool_rotates(self, after, source, r),
        ensures
            after.manager.max_arenas == self.manager.max_arenas,
            self.manager.max_arenas > 0 && self.manager.live_count() <= self.manager.max_arenas
                ==> after.manager.live_count() <= self.manager.max_arenas,
            self.manager.live_count() <= after.manager.live_count() <= self.manager.live_count()
                + 1,
    {
        let mid = self.manager.ready();
        if mid.free.len() > 0 {
            self.ready_is_sound();
            self.manager.collected_is_sound();
            mid.reuse_is_sound();
        }
    }

    /// Collecting and shrinking move arenas around: a sweep unmaps none, and
    /// shrinking leaves the free pool within its limit, unmapping the rest.
    pub proof fn arenas_are_accounted_for(self)
        requires
            self.wf(),
        ensures
            self.collected().manager.live_count() == self.manager.live_count(),
            self.shrunk().manager.free.len() <= self.manager.max_free,
            self.shrunk().manager.live_count() + self.manager.excess()
                == self.manager.live_count(),
            self.shrunk().manager.unmapped.len() == self.manager.unmapped.len()
                + self.manager.excess(),
    {
        self.manager.collected_is_sound();
        self.manager.shrunk_is_sound();
        self.manager.shrunk_queues_memory();
    }
}

impl crate::ring::registration::RegistrationView {
    /// How many entries of a list name an arena without a slot.
    pub open spec fn missing(self, arenas: Seq<int>) -> nat
        decreases arenas.len(),
    {
        if arenas.len() == 0 {
            0
        } else {
            self.missing(arenas.drop_first()) + if self.held.contains_key(arenas[0]) {
                0nat
            } else {
                1nat
            }
        }
    }

    /// The most slots that pre-placing a list can use up.
    pub open spec fn pre_places(self, arenas: Seq<int>) -> int {
        if self.missing(arenas) <= self.slots.room() {
            self.missing(arenas) as int
        } else {
            self.slots.room()
        }
    }

    /// A slot more leaves no more arenas without one.
    pub proof fn placing_helps(self, i: int, arenas: Seq<int>)
        ensures
            self.placed(i).next().missing(arenas) <= self.missing(arenas),
        decreases arenas.len(),
    {
        if arenas.len() > 0 {
            self.placing_helps(i, arenas.drop_first());
        }
    }

    /// Pre-placing gives a slot to every arena of a list, as long as there are as
    /// many left as arenas without one, and takes none away.
    pub proof fn pre_placed_all_covers(self, arenas: Seq<int>)
        requires
            self.wf(),
            self.missing(arenas) <= self.slots.room(),
            forall|k: int| 0 <= k < arenas.len() ==> 0 <= #[trigger] arenas[k] < usize::MAX,
        ensures
            forall|k: int|
                0 <= k < arenas.len() ==> self.pre_placed_all(arenas).held.contains_key(
                    #[trigger] arenas[k],
                ),
            forall|i: int| #[trigger]
                self.held.contains_key(i) ==> self.pre_placed_all(arenas).held.contains_key(i)
                    && self.pre_placed_all(arenas).held[i] == self.held[i],
        decreases arenas.len(),
    {
        if arenas.len() > 0 {
            let first = arenas[0];
            let rest = arenas.drop_first();
            let mid = self.pre_placed(first);
            self.slots.room_counts();
            self.pre_placed_is_sound(first);
            assert forall|k: int| 0 <= k < rest.len() implies 0 <= #[trigger] rest[k]
                < usize::MAX by {
                assert(rest[k] == arenas[k + 1]);
            }
            self.placing_helps(first, rest);
            assert(mid.held.contains_key(first));
            assert(mid.slots.room() >= self.slots.room() - 1);
            mid.pre_placed_all_covers(rest);
            assert forall|k: int| 0 <= k < arenas.len() implies self.pre_placed_all(
                arenas,
            ).held.contains_key(#[trigger] arenas[k]) by {
                if k > 0 {
                    assert(rest[k - 1] == arenas[k]);
                }
            }
            assert forall|i: int| #[trigger] self.held.contains_key(
                i,
            ) implies self.pre_placed_all(arenas).held.contains_key(i) && self.pre_placed_all(
                arenas,
            ).held[i] == self.held[i] by {
                assert(mid.held.contains_key(i) && mid.held[i] == self.held[i]);
            }
        }
    }
}

impl ManagerView {
    /// If no draining arena has a lease out, a sweep frees them all.
    pub proof fn idle_queue_is_collected(self)
        requires
            self.wf(),
            forall|k: int|
                0 <= k < self.draining.len() ==> self.idle(#[trigger] self.draining[k]),
        ensures
            self.swept() == self.draining,
            self.kept().len() == 0,
            self.collected().draining.len() == 0,
            self.collected().free == self.free + self.draining,
    {
        self.stop_in_range(0);
        assert(self.stop_from(0) == self.draining.len());
        let reached = self.reached();
        assert(reached =~= self.draining);
        assert forall|k: int| 0 <= k < reached.len() implies (self.is_idle())(
            #[trigger] reached[k],
        ) by {}
        crate::epoch::model::filter_everything(reached, self.is_idle());
        self.sweep_splits();
    }

    /// A second sweep right after the first frees nothing.
    pub proof fn sweeping_twice_is_sweeping_once(self)
        requires
            self.wf(),
        ensures
            self.collected().swept().len() == 0,
            self.collected().collected() == self.collected(),
    {
        let once = self.collected();
        self.collected_is_sound();
        self.sweep_splits();
        self.stop_in_range(0);
        let stop = self.stop_from(0);
        let leased = self.reached().filter(self.is_leased());
        let n = leased.len() as int;
        // Arenas that stay keep their leases and their epochs.
        assert forall|i: int| #[trigger] self.kept().contains(i) implies once.arena(i)
            == self.arena(i) by {
            assert(self.draining.contains(i));
            assert(self.live(i));
        }
        assert forall|k: int| 0 <= k < n implies !once.idle(#[trigger] once.draining[k]) by {
            assert(once.draining[k] == leased[k]);
            assert(leased.contains(leased[k]));
            crate::epoch::model::filter_is_part(self.reached(), self.is_leased(), leased[k]);
            assert(self.kept().contains(once.draining[k]));
        }
        once.stop_in_range(0);
        assert(once.stop_from(0) <= n) by {
            if once.stop_from(0) > n {
                assert(once.draining[n] == self.draining[stop]);
                assert(self.kept().contains(once.draining[n]));
                assert(self.blocks(self.draining[stop]));
                assert(once.blocks(once.draining[n]));
            }
        }
        assert(once.swept().len() == 0) by {
            if once.swept().len() > 0 {
                let i = once.swept()[0];
                assert(once.swept().contains(i));
                crate::epoch::model::filter_is_part(once.reached(), once.is_idle(), i);
                let k = choose|k: int|
                    0 <= k < once.reached().len() && once.reached()[k] == i;
                assert(once.draining[k] == i);
            }
        }
        once.empty_sweep_is_identity();
    }

    /// A sweep queues the idle pages of every arena that it frees.
    pub proof fn sweeps_advise_every_arena(self, i: int)
        requires
            self.swept().contains(i),
            self.advice_at(i) is Some,
        ensures
            self.collected().advice.contains(self.advice_at(i)->0),
    {
        let k = choose|k: int| 0 <= k < self.swept().len() && self.swept()[k] == i;
        crate::epoch::model::images_are_kept(self.swept(), self.advice_fn(), k);
        let fresh = self.swept().filter_map(self.advice_fn());
        let j = choose|j: int| 0 <= j < fresh.len() && #[trigger] fresh[j] == self.advice_at(i)->0;
        assert(self.collected().advice[self.advice.len() + j] == fresh[j]);
    }

    /// Shrinking queues the memory of exactly the arenas that go.
    pub proof fn shrunk_queues_memory(self)
        ensures
            self.shrunk().unmapped.len() == self.unmapped.len() + self.excess(),
        decreases self.free.len(),
    {
        if self.free.len() > self.max_free {
            self.cut().shrunk_queues_memory();
        }
    }
}

impl ArenaView {
    /// Leases come back in any order and on any thread: what counts is how many
    /// are out.
    pub proof fn counters_commute(self)
        requires
            self.wf(),
            self.outstanding() >= 2,
        ensures
            ({
                let local = ArenaView { acquired: (self.acquired - 1) as nat, ..self };
                let remote = ArenaView { returned: self.returned + 1, ..self };
                &&& local.wf() && remote.wf()
                &&& local.outstanding() == self.outstanding() - 1
                &&& remote.outstanding() == self.outstanding() - 1
                &&& (ArenaView { returned: local.returned + 1, ..local }) == (ArenaView {
                    acquired: (remote.acquired - 1) as nat,
                    ..remote
                })
            }),
    {
    }

    /// A recycled arena starts over: nothing is handed out, nothing is leased,
    /// and the memory is as it was.
    pub proof fn recycling_starts_over(self, epoch: u64)
        requires
            self.wf(),
        ensures
            self.recycled(epoch).wf(),
            self.recycled(epoch).outstanding() == 0,
            self.recycled(epoch).available() == self.capacity(),
            self.recycled(epoch).bytes == self.bytes,
            self.recycled(epoch).epoch == epoch,
    {
    }

    /// The pages that the kernel may take back hold nothing that is handed out.
    pub proof fn idle_pages_are_unused(self, page: int)
        requires
            self.wf(),
            crate::config::is_power_of_two(page),
            self.idle_pages(page) is Some,
        ensures
            self.used <= self.idle_pages(page)->0.start,
            self.idle_pages(page)->0.start + self.idle_pages(page)->0.len == self.capacity(),
            self.idle_pages(page)->0.start as int % page == 0,
            self.idle_pages(page)->0.start < self.used + page,
    {
        let k = choose|k: nat| page == #[trigger] vstd::arithmetic::power2::pow2(k);
        vstd::arithmetic::power2::lemma_pow2_pos(k);
        let n = self.used + page - 1;
        let q = n / page;
        vstd::arithmetic::div_mod::lemma_fundamental_div_mod(n, page);
        assert(page * q == q * page) by (nonlinear_arith);
        vstd::arithmetic::div_mod::lemma_mod_multiples_basic(q, page);
    }
}

} // verus!
