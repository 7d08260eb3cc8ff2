//! The mathematical model of the pool: the manager, the registration, and a
//! ledger of all leases that are out.
use vstd::prelude::*;

use crate::buffer::leased::Lease;
use crate::config::PoolConfig;
use crate::epoch::arena::{ArenaState, ArenaView, Region};
use crate::epoch::model::ManagerView;
use crate::gc::HookCall;
use crate::ring::registration::RegistrationView;

verus! {

/// What a pool is: its arenas, its registration, the leases that are out, how
/// many were ever handed out, and what the hooks were told.
#[verifier::ext_equal]
pub struct PoolView {
    pub manager: ManagerView,
    pub reg: RegistrationView,
    pub leases: Set<Lease>,
    pub issued: nat,
    pub calls: Seq<HookCall>,
}

impl PoolView {
    /// The leases of the arena at `i` that are out.
    pub open spec fn at(self, i: int) -> Set<Lease> {
        Set::new(|l: Lease| self.leases.contains(l) && l.arena == i)
    }

    /// The leased bytes.
    pub open spec fn bytes_of(self, l: Lease) -> Seq<u8> {
        l.of(self.manager.arena(l.arena))
    }

    /// A lease lies in the used part of a live arena, the very one that it was
    /// taken from, which still serves the epoch the lease was taken in.
    pub open spec fn valid(self, l: Lease) -> bool {
        &&& l.number < self.issued
        &&& self.manager.live(l.arena)
        &&& l.home == self.manager.arena(l.arena).id
        &&& l.end() <= self.manager.arena(l.arena).used
        &&& l.epoch == self.manager.arena(l.arena).epoch
    }

    /// The ledger agrees with the arenas: every lease is valid, no two share a
    /// byte, and each arena counts the leases that are out.
    pub open spec fn leases_wf(self) -> bool {
        &&& self.leases.finite()
        &&& forall|l: Lease| #[trigger] self.leases.contains(l) ==> self.valid(l)
        &&& forall|l: Lease, m: Lease|
            #![trigger self.leases.contains(l), self.leases.contains(m)]
            self.leases.contains(l) && self.leases.contains(m) && l != m ==> l.apart(m)
                && l.number != m.number
        &&& forall|i: int| #[trigger]
            self.manager.live(i) ==> self.at(i).len() == self.manager.arena(i).outstanding()
    }

    /// Free arenas have no lease out.
    pub open spec fn free_is_idle(self) -> bool {
        forall|k: int|
            0 <= k < self.manager.free.len() ==> self.manager.idle(#[trigger] self.manager.free[k])
    }

    /// The written arena serves the current epoch, and the drain queue is in
    /// the order in which its arenas were written.
    pub open spec fn epochs_wf(self) -> bool {
        &&& self.manager.current().epoch == self.manager.epoch
        &&& forall|k: int|
            0 <= k < self.manager.draining.len() ==> self.manager.arena(
                #[trigger] self.manager.draining[k],
            ).epoch < self.manager.epoch
        &&& forall|j: int, k: int|
            0 <= j < k < self.manager.draining.len() ==> self.manager.arena(
                #[trigger] self.manager.draining[j],
            ).epoch < self.manager.arena(#[trigger] self.manager.draining[k]).epoch
    }

    pub open spec fn wf(self) -> bool {
        &&& self.manager.wf()
        &&& self.reg.wf()
        &&& self.leases_wf()
        &&& self.free_is_idle()
        &&& self.epochs_wf()
    }

    /// A pool that has just mapped `regions`.
    pub open spec fn initial(config: PoolConfig, regions: Seq<Region>) -> Self {
        PoolView {
            manager: ManagerView::initial(config, regions),
            reg: RegistrationView::initial(config.registration_slots),
            leases: Set::empty(),
            issued: 0,
            calls: Seq::empty(),
        }
    }

    /// The lease that the next request for `len` bytes gets.
    pub open spec fn next_lease(self, len: nat) -> Lease {
        Lease {
            number: self.issued,
            home: self.manager.current().id,
            arena: self.manager.write,
            start: self.manager.current().used,
            len,
            epoch: self.manager.current().epoch,
        }
    }

    /// The registration slot of the written arena; 0 if it has none.
    pub open spec fn current_slot(self) -> int {
        if self.reg.held.contains_key(self.manager.write) {
            self.reg.held[self.manager.write]
        } else {
            0
        }
    }

    /// The pool after a lease of `len` bytes.
    pub open spec fn leased(self, len: nat) -> Self {
        PoolView {
            manager: self.manager.with_arena(
                self.manager.write,
                self.manager.current().leased(len),
            ),
            leases: self.leases.insert(self.next_lease(len)),
            issued: self.issued + 1,
            calls: self.calls.push(
                HookCall::Pin {
                    epoch: self.manager.current().epoch,
                    buf_id: self.manager.current().next_buf_id,
                },
            ),
            ..self
        }
    }

    /// The pool after a lease came back on the owning thread.
    pub open spec fn given_back(self, l: Lease) -> Self {
        let arena = self.manager.arena(l.arena);
        PoolView {
            manager: self.manager.with_arena(
                l.arena,
                ArenaView { acquired: (arena.acquired - 1) as nat, ..arena },
            ),
            leases: self.leases.remove(l),
            ..self
        }
    }

    /// The pool after a lease came back from another thread.
    pub open spec fn returned(self, l: Lease) -> Self {
        let arena = self.manager.arena(l.arena);
        PoolView {
            manager: self.manager.with_arena(
                l.arena,
                ArenaView { returned: arena.returned + 1, ..arena },
            ),
            leases: self.leases.remove(l),
            ..self
        }
    }

    /// The pool after `data` was written through a lease.
    pub open spec fn written(self, l: Lease, data: Seq<u8>) -> Self {
        PoolView {
            manager: self.manager.with_arena(
                l.arena,
                self.manager.arena(l.arena).with_bytes(l.start as int, data),
            ),
            ..self
        }
    }

    /// The pool after a sweep of the drain queue.
    pub open spec fn collected(self) -> Self {
        PoolView {
            manager: self.manager.collected(),
            calls: self.calls.push(
                HookCall::Sweep { collected: self.manager.swept().len() as int },
            ),
            ..self
        }
    }

    /// The pool after its free arenas were cut down to the limit.
    pub open spec fn shrunk(self) -> Self {
        PoolView {
            manager: self.manager.shrunk(),
            calls: self.calls + self.manager.dropped().map_values(
                |i: int| HookCall::ArenaFree { arena: i },
            ),
            ..self
        }
    }

    /// The pool after the arena at `i` was marked as reclaimed.
    pub open spec fn reclaimed(self, i: int, epoch: u64) -> Self {
        PoolView {
            manager: self.manager.with_arena(
                i,
                ArenaView { state: ArenaState::Collected, ..self.manager.arena(i) },
            ),
            calls: self.calls.push(HookCall::Collect { epoch }),
            ..self
        }
    }

    /// A rotation finds no arena to reuse, and may map one.
    pub open spec fn must_grow(self) -> bool {
        self.manager.ready().free.len() == 0 && !self.manager.at_limit()
    }

    /// The counters have room for a rotation.
    pub open spec fn can_turn(self) -> bool {
        &&& self.manager.epoch < u64::MAX
        &&& self.must_grow() && !self.reg.slots.full() ==> self.reg.generation < u64::MAX
    }

    /// What the hooks have been told after a rotation.
    pub open spec fn rotate_call(self) -> HookCall {
        HookCall::Rotate {
            retired: self.manager.epoch,
            active: (self.manager.epoch + 1) as u64,
        }
    }

    /// The pool after a rotation onto a free arena.
    pub open spec fn reused(self) -> Self {
        let mid = self.manager.ready();
        PoolView {
            manager: mid.popped().activated(mid.free.last()),
            calls: self.calls.push(self.rotate_call()),
            ..self
        }
    }

    /// The pool after a rotation onto a new arena over `region`. The arena gets
    /// a registration slot, if one is left.
    pub open spec fn extended(self, region: Region) -> Self {
        PoolView {
            manager: self.manager.grown(region).activated(self.manager.gap()),
            reg: if self.reg.slots.full() {
                self.reg
            } else {
                self.reg.placed(self.manager.gap()).next()
            },
            calls: self.calls.push(self.rotate_call()).push(
                HookCall::ArenaAlloc { arena: self.manager.gap() },
            ),
            ..self
        }
    }
}

impl RegistrationView {
    /// A slot for the arena at `i`, unless it has one or none is left.
    pub open spec fn pre_placed(self, i: int) -> Self {
        if self.held.contains_key(i) || self.slots.full() {
            self
        } else {
            self.placed(i).next()
        }
    }

    /// A slot for each of `arenas` that has none, as far as slots are left.
    pub open spec fn pre_placed_all(self, arenas: Seq<int>) -> Self
        decreases arenas.len(),
    {
        if arenas.len() == 0 {
            self
        } else {
            self.pre_placed(arenas[0]).pre_placed_all(arenas.drop_first())
        }
    }
}

impl PoolView {
    /// The leases of one arena are finitely many, and there are some exactly if
    /// the arena counts some.
    pub proof fn counted(self, i: int)
        requires
            self.leases_wf(),
        ensures
            self.at(i).finite(),
            self.manager.live(i) && self.manager.idle(i) ==> forall|l: Lease| #[trigger]
                self.leases.contains(l) ==> l.arena != i,
            forall|l: Lease| #[trigger]
                self.leases.contains(l) && l.arena == i ==> self.manager.arena(i).outstanding() > 0,
    {
        vstd::set_lib::lemma_set_subset_finite(self.leases, self.at(i));
        assert forall|l: Lease| #[trigger]
            self.leases.contains(l) && l.arena == i implies self.manager.arena(i).outstanding()
            > 0 by {
            assert(self.valid(l));
            assert(self.at(i).contains(l));
            vstd::set_lib::lemma_set_empty_equivalency_len(self.at(i));
        }
    }

    /// An operation that leaves every leased arena alone in what concerns its
    /// leases, and has no lease out anywhere else, keeps the ledger.
    pub proof fn ledger_carries_over(self, after: PoolView)
        requires
            self.leases_wf(),
            after.leases == self.leases,
            after.issued == self.issued,
            forall|i: int| #[trigger]
                self.manager.live(i) && !self.manager.idle(i) ==> after.manager.live(i)
                    && after.manager.arena(i).id == self.manager.arena(i).id
                    && after.manager.arena(i).used >= self.manager.arena(i).used
                    && after.manager.arena(i).epoch == self.manager.arena(i).epoch
                    && after.manager.arena(i).outstanding() == self.manager.arena(
                    i,
                ).outstanding(),
            forall|i: int| #[trigger]
                after.manager.live(i) && (!self.manager.live(i) || self.manager.idle(i))
                    ==> after.manager.idle(i),
        ensures
            after.leases_wf(),
    {
        assert forall|l: Lease| #[trigger] after.leases.contains(l) implies after.valid(l) by {
            assert(self.leases.contains(l));
            self.counted(l.arena);
            assert(self.manager.live(l.arena));
        }
        assert forall|i: int| #[trigger] after.manager.live(i) implies after.at(i).len()
            == after.manager.arena(i).outstanding() by {
            assert(after.at(i) =~= self.at(i));
            self.counted(i);
            if self.manager.live(i) {
                assert(self.at(i).len() == self.manager.arena(i).outstanding());
            } else {
                assert forall|l: Lease| !self.at(i).contains(l) by {
                    if self.leases.contains(l) && l.arena == i {
                        assert(self.valid(l));
                    }
                }
                assert(self.at(i) =~= Set::<Lease>::empty());
            }
        }
    }

    /// A fresh pool is sound.
    pub proof fn initial_is_sound(config: PoolConfig, regions: Seq<Region>)
        requires
            config.valid(),
            regions.len() == config.initial_arenas,
            forall|i: int|
                0 <= i < regions.len() ==> (#[trigger] regions[i]).bytes.len()
                    == config.arena_size,
        ensures
            PoolView::initial(config, regions).wf(),
    {
        ManagerView::initial_is_sound(config, regions);
        let fresh = PoolView::initial(config, regions);
        assert forall|i: int| #[trigger] fresh.manager.live(i) implies fresh.at(i).len()
            == fresh.manager.arena(i).outstanding() by {
            assert(fresh.at(i) =~= Set::<Lease>::empty());
        }
    }

    /// Leasing keeps the pool sound.
    pub proof fn leased_is_sound(self, len: nat)
        requires
            self.wf(),
            len <= self.manager.current().available(),
            self.manager.current().acquired < usize::MAX,
        ensures
            self.leased(len).wf(),
    {
        let w = self.manager.write;
        let after = self.leased(len);
        let fresh = self.next_lease(len);
        self.manager.with_arena_is_sound(w, self.manager.current().leased(len));
        assert(!self.leases.contains(fresh)) by {
            if self.leases.contains(fresh) {
                assert(self.valid(fresh));
            }
        }
        assert forall|l: Lease| #[trigger] after.leases.contains(l) implies after.valid(l) by {
            if l != fresh {
                assert(self.leases.contains(l));
                assert(self.valid(l));
            }
        }
        assert forall|l: Lease, m: Lease|
            #![trigger after.leases.contains(l), after.leases.contains(m)]
            after.leases.contains(l) && after.leases.contains(m) && l != m implies l.apart(m)
            && l.number != m.number by {
            if l != fresh {
                assert(self.leases.contains(l));
                assert(self.valid(l));
            }
            if m != fresh {
                assert(self.leases.contains(m));
                assert(self.valid(m));
            }
        }
        assert forall|i: int| #[trigger] after.manager.live(i) implies after.at(i).len()
            == after.manager.arena(i).outstanding() by {
            assert(self.manager.live(i));
            self.counted(i);
            if i == w {
                assert(after.at(i) =~= self.at(i).insert(fresh));
                assert(!self.at(i).contains(fresh));
            } else {
                assert(after.at(i) =~= self.at(i));
            }
        }
        self.queues_carry_over(after);
    }

    /// Changing only arenas' counters, contents or state leaves the queues in
    /// order.
    proof fn queues_carry_over(self, after: PoolView)
        requires
            self.manager.wf(),
            self.free_is_idle(),
            self.epochs_wf(),
            after.manager.free == self.manager.free,
            after.manager.draining == self.manager.draining,
            after.manager.write == self.manager.write,
            after.manager.epoch == self.manager.epoch,
            forall|i: int| #[trigger]
                self.manager.live(i) ==> after.manager.arena(i).epoch == self.manager.arena(
                    i,
                ).epoch,
            forall|i: int| #[trigger]
                self.manager.live(i) && self.manager.idle(i) && i != self.manager.write
                    ==> after.manager.idle(i),
        ensures
            after.free_is_idle(),
            after.epochs_wf(),
    {
        assert(self.manager.live(self.manager.write));
        assert forall|k: int| 0 <= k < after.manager.free.len() implies after.manager.idle(
            #[trigger] after.manager.free[k],
        ) by {
            let i = self.manager.free[k];
            assert(self.manager.live(i) && self.manager.idle(i));
        }
        assert forall|k: int| 0 <= k < after.manager.draining.len() implies after.manager.arena(
            #[trigger] after.manager.draining[k],
        ).epoch < after.manager.epoch by {
            assert(self.manager.live(self.manager.draining[k]));
        }
        assert forall|j: int, k: int|
            0 <= j < k < after.manager.draining.len() implies after.manager.arena(
            #[trigger] after.manager.draining[j],
        ).epoch < after.manager.arena(#[trigger] after.manager.draining[k]).epoch by {
            assert(self.manager.live(self.manager.draining[j]));
            assert(self.manager.live(self.manager.draining[k]));
        }
    }

    /// Taking a lease back keeps the pool sound, on whichever counter it is
    /// recorded.
    pub proof fn giving_back_is_sound(self, l: Lease)
        requires
            self.wf(),
            self.leases.contains(l),
        ensures
            self.manager.live(l.arena),
            self.manager.arena(l.arena).wf(),
            self.manager.arena(l.arena).outstanding() > 0,
            self.given_back(l).wf(),
            self.returned(l).wf(),
    {
        assert(self.valid(l));
        self.counted(l.arena);
        let arena = self.manager.arena(l.arena);
        let local = ArenaView { acquired: (arena.acquired - 1) as nat, ..arena };
        let remote = ArenaView { returned: arena.returned + 1, ..arena };
        self.manager.with_arena_is_sound(l.arena, local);
        self.manager.with_arena_is_sound(l.arena, remote);
        self.removal_is_sound(l, self.given_back(l));
        self.removal_is_sound(l, self.returned(l));
    }

    /// The part of the argument that does not depend on the counter.
    proof fn removal_is_sound(self, l: Lease, after: PoolView)
        requires
            self.wf(),
            self.leases.contains(l),
            after.manager.wf(),
            after.reg == self.reg,
            after.issued == self.issued,
            after.leases == self.leases.remove(l),
            after.manager == self.manager.with_arena(l.arena, after.manager.arena(l.arena)),
            after.manager.arena(l.arena).id == self.manager.arena(l.arena).id,
            after.manager.arena(l.arena).used == self.manager.arena(l.arena).used,
            after.manager.arena(l.arena).epoch == self.manager.arena(l.arena).epoch,
            after.manager.arena(l.arena).outstanding() == self.manager.arena(l.arena).outstanding()
                - 1,
        ensures
            after.wf(),
    {
        assert(self.valid(l));
        self.counted(l.arena);
        assert forall|m: Lease| #[trigger] after.leases.contains(m) implies after.valid(m) by {
            assert(self.leases.contains(m));
            assert(self.valid(m));
        }
        assert forall|i: int| #[trigger] after.manager.live(i) implies after.at(i).len()
            == after.manager.arena(i).outstanding() by {
            assert(self.manager.live(i));
            self.counted(i);
            if i == l.arena {
                assert(self.at(i).contains(l));
                assert(after.at(i) =~= self.at(i).remove(l));
            } else {
                assert(after.at(i) =~= self.at(i));
            }
        }
        self.queues_carry_over(after);
    }

    /// Writing through a lease keeps the pool sound.
    pub proof fn writing_is_sound(self, l: Lease, data: Seq<u8>)
        requires
            self.wf(),
            self.leases.contains(l),
            data.len() == l.len,
        ensures
            self.written(l, data).wf(),
    {
        assert(self.valid(l));
        let after = self.written(l, data);
        let arena = self.manager.arena(l.arena);
        assert(arena.wf());
        assert(after.manager.arena(l.arena).bytes.len() == arena.bytes.len());
        self.manager.with_arena_is_sound(l.arena, arena.with_bytes(l.start as int, data));
        self.ledger_carries_over(after);
        self.queues_carry_over(after);
    }

    /// Marking an idle arena as reclaimed keeps the pool sound.
    pub proof fn reclaiming_is_sound(self, i: int, epoch: u64)
        requires
            self.wf(),
            self.manager.live(i),
        ensures
            self.reclaimed(i, epoch).wf(),
    {
        let after = self.reclaimed(i, epoch);
        let arena = self.manager.arena(i);
        self.manager.with_arena_is_sound(i, ArenaView { state: ArenaState::Collected, ..arena });
        self.ledger_carries_over(after);
        self.queues_carry_over(after);
    }

    /// Changes to the registration and to the history do not concern the
    /// arenas.
    pub proof fn registration_is_separate(self, reg: RegistrationView)
        requires
            self.wf(),
            reg.wf(),
        ensures
            (PoolView { reg, ..self }).wf(),
    {
        let after = PoolView { reg, ..self };
        self.ledger_carries_over(after);
        self.queues_carry_over(after);
    }

    /// Taking what is queued for the kernel keeps the pool sound.
    pub proof fn mailboxes_do_not_matter(self, manager: ManagerView)
        requires
            self.wf(),
            manager == (ManagerView {
                advice: manager.advice,
                unmapped: manager.unmapped,
                ..self.manager
            }),
            manager.advice == self.manager.advice || manager.advice.len() == 0,
        ensures
            (PoolView { manager, ..self }).wf(),
    {
        let after = PoolView { manager, ..self };
        self.manager.mailboxes_do_not_matter(manager);
        assert forall|i: int| #[trigger] after.manager.live(i) implies self.manager.live(i)
            && after.manager.arena(i) == self.manager.arena(i) by {}
        assert forall|i: int| #[trigger] self.manager.live(i) implies after.manager.live(i)
            && after.manager.arena(i) == self.manager.arena(i) by {}
        self.ledger_carries_over(after);
        self.queues_carry_over(after);
    }
}

/// Filtering keeps the order of what it lets through.
pub proof fn filter_in_order(s: Seq<int>, p: spec_fn(int) -> bool, j: int, k: int)
    requires
        0 <= j < k < s.filter(p).len(),
    ensures
        exists|a: int, b: int|
            0 <= a < b < s.len() && #[trigger] s[a] == s.filter(p)[j] && #[trigger] s[b]
                == s.filter(p)[k],
    decreases s.len(),
{
    reveal(Seq::filter);
    let rest = s.drop_last();
    let f = rest.filter(p);
    if k < f.len() {
        filter_in_order(rest, p, j, k);
        let (a, b) = choose|a: int, b: int|
            0 <= a < b < rest.len() && #[trigger] rest[a] == f[j] && #[trigger] rest[b] == f[k];
        assert(s[a] == s.filter(p)[j] && s[b] == s.filter(p)[k]);
    } else {
        crate::epoch::model::filter_is_part(rest, p, f[j]);
        assert(f.contains(f[j]));
        let a = choose|a: int| 0 <= a < rest.len() && rest[a] == f[j];
        assert(s[a] == s.filter(p)[j] && s[s.len() - 1] == s.filter(p)[k]);
    }
}

impl ManagerView {
    /// A sweep keeps the order of the drain queue.
    pub proof fn kept_in_order(self, j: int, k: int)
        requires
            0 <= j < k < self.kept().len(),
        ensures
            exists|a: int, b: int|
                0 <= a < b < self.draining.len() && #[trigger] self.draining[a] == self.kept()[j]
                    && #[trigger] self.draining[b] == self.kept()[k],
    {
        self.stop_in_range(0);
        let stop = self.stop_from(0);
        let reached = self.reached();
        let leased = reached.filter(self.is_leased());
        if k < leased.len() {
            filter_in_order(reached, self.is_leased(), j, k);
            let (a, b) = choose|a: int, b: int|
                0 <= a < b < reached.len() && #[trigger] reached[a] == leased[j]
                    && #[trigger] reached[b] == leased[k];
            assert(self.draining[a] == self.kept()[j] && self.draining[b] == self.kept()[k]);
        } else {
            let b = stop + (k - leased.len());
            assert(self.draining[b] == self.kept()[k]);
            if j < leased.len() {
                crate::epoch::model::filter_is_part(reached, self.is_leased(), leased[j]);
                assert(leased.contains(leased[j]));
                let a = choose|a: int| 0 <= a < reached.len() && reached[a] == leased[j];
                assert(self.draining[a] == self.kept()[j]);
            } else {
                let a = stop + (j - leased.len());
                assert(self.draining[a] == self.kept()[j]);
            }
        }
    }
}

impl PoolView {
    /// A sweep keeps the pool sound.
    pub proof fn collected_is_sound(self)
        requires
            self.wf(),
        ensures
            self.collected().wf(),
            forall|i: int| #[trigger]
                self.manager.live(i) ==> self.collected().manager.arena(i) == self.manager.arena(i)
                    || self.collected().manager.arena(i) == (ArenaView {
                    state: ArenaState::Collected,
                    ..self.manager.arena(i)
                }),
    {
        let v = self.manager;
        let after = self.collected();
        v.collected_is_sound();
        v.sweep_splits();
        assert forall|i: int| #[trigger] v.live(i) implies after.manager.arena(i) == v.arena(i)
            || after.manager.arena(i) == (ArenaView {
            state: ArenaState::Collected,
            ..v.arena(i)
        }) by {}
        assert forall|i: int| #[trigger] after.manager.live(i) implies v.live(i) by {}
        self.ledger_carries_over(after);
        assert forall|k: int| 0 <= k < after.manager.free.len() implies after.manager.idle(
            #[trigger] after.manager.free[k],
        ) by {
            let i = after.manager.free[k];
            if k < v.free.len() {
                assert(i == v.free[k]);
                assert(v.live(i) && v.idle(i));
            } else {
                assert(i == v.swept()[k - v.free.len()]);
                assert(v.swept().contains(i));
                assert(v.idle(i));
                assert(v.draining.contains(i));
                assert(v.live(i));
            }
        }
        assert(v.live(v.write));
        assert forall|k: int| 0 <= k < after.manager.draining.len() implies after.manager.arena(
            #[trigger] after.manager.draining[k],
        ).epoch < after.manager.epoch by {
            let i = after.manager.draining[k];
            assert(v.kept().contains(i));
            assert(v.draining.contains(i));
            assert(v.live(i));
        }
        assert forall|j: int, k: int|
            0 <= j < k < after.manager.draining.len() implies after.manager.arena(
            #[trigger] after.manager.draining[j],
        ).epoch < after.manager.arena(#[trigger] after.manager.draining[k]).epoch by {
            v.kept_in_order(j, k);
            let (a, b) = choose|a: int, b: int|
                0 <= a < b < v.draining.len() && #[trigger] v.draining[a] == v.kept()[j]
                    && #[trigger] v.draining[b] == v.kept()[k];
            assert(v.live(v.draining[a]) && v.live(v.draining[b]));
        }
    }

    /// The pool as a rotation finds it is sound.
    pub proof fn ready_is_sound(self)
        requires
            self.wf(),
        ensures
            (PoolView { manager: self.manager.ready(), ..self }).wf(),
    {
        let mid = PoolView { manager: self.manager.ready(), ..self };
        if self.manager.free.len() == 0 {
            self.collected_is_sound();
            let after = self.collected();
            after.ledger_carries_over(mid);
            after.queues_carry_over(mid);
        } else {
            assert(mid == self);
        }
    }

    /// Shrinking keeps the pool sound.
    pub proof fn shrunk_is_sound(self)
        requires
            self.wf(),
        ensures
            self.shrunk().wf(),
            forall|i: int| #[trigger]
                self.shrunk().manager.live(i) ==> self.manager.live(i)
                    && self.shrunk().manager.arena(i) == self.manager.arena(i),
            forall|i: int| #[trigger]
                self.manager.live(i) && !self.manager.idle(i) ==> self.shrunk().manager.live(i),
    {
        let v = self.manager;
        let after = self.shrunk();
        v.shrunk_is_sound();
        let gone = v.free.skip(v.free.len() - v.excess());
        assert forall|i: int| #[trigger] gone.contains(i) implies v.live(i) && v.idle(i)
            && i != v.write && !v.draining.contains(i) by {
            let k = choose|k: int| 0 <= k < gone.len() && gone[k] == i;
            let m = v.free.len() - v.excess() + k;
            assert(v.free[m] == i);
            if v.draining.contains(i) {
                let d = choose|d: int| 0 <= d < v.draining.len() && v.draining[d] == i;
                assert(v.draining[d] != v.free[m]);
            }
        }
        assert forall|i: int| #[trigger] after.manager.live(i) implies v.live(i)
            && after.manager.arena(i) == v.arena(i) by {
            assert(after.manager.slab[i] == if gone.contains(i) {
                None
            } else {
                v.slab[i]
            });
        }
        assert forall|i: int| #[trigger] v.live(i) && !gone.contains(i) implies after.manager.live(
            i,
        ) by {
            assert(after.manager.slab[i] == v.slab[i]);
        }
        self.ledger_carries_over(after);
        assert forall|k: int| 0 <= k < after.manager.free.len() implies after.manager.idle(
            #[trigger] after.manager.free[k],
        ) by {
            assert(after.manager.live(after.manager.free[k]));
            assert(v.idle(v.free[k]));
        }
        assert forall|k: int| 0 <= k < v.draining.len() implies after.manager.arena(
            #[trigger] v.draining[k],
        ) == v.arena(v.draining[k]) by {
            assert(after.manager.live(after.manager.draining[k]));
        }
    }

    /// Rotating onto a free arena keeps the pool sound.
    pub proof fn reused_is_sound(self)
        requires
            self.wf(),
            self.manager.ready().free.len() > 0,
            self.manager.epoch < u64::MAX,
        ensures
            self.reused().wf(),
    {
        self.ready_is_sound();
        let start = PoolView { manager: self.manager.ready(), ..self };
        let mid = start.manager;
        let next = mid.free.last();
        let after = self.reused();
        mid.reuse_is_sound();
        assert(mid.live(mid.free[mid.free.len() - 1]) && mid.idle(mid.free[mid.free.len() - 1]));
        assert forall|i: int| #[trigger] after.manager.live(i) implies mid.live(i) && (i != next
            && i != mid.write ==> after.manager.arena(i) == mid.arena(i)) by {}
        assert forall|i: int| #[trigger] mid.live(i) implies after.manager.live(i) && (i != next
            && i != mid.write ==> after.manager.arena(i) == mid.arena(i)) by {}
        start.ledger_carries_over(after);
        assert forall|k: int| 0 <= k < after.manager.free.len() implies after.manager.idle(
            #[trigger] after.manager.free[k],
        ) by {
            assert(mid.free[k] != mid.free[mid.free.len() - 1]);
            assert(mid.live(mid.free[k]) && mid.idle(mid.free[k]));
        }
        assert(!mid.draining.contains(next)) by {
            if mid.draining.contains(next) {
                let d = choose|d: int| 0 <= d < mid.draining.len() && mid.draining[d] == next;
                assert(mid.draining[d] != mid.free[mid.free.len() - 1]);
            }
        }
        start.retiring_keeps_order(after, mid.popped(), next);
    }

    /// Retiring the written arena keeps the drain queue in order.
    proof fn retiring_keeps_order(self, after: PoolView, mid: ManagerView, next: int)
        requires
            self.manager.wf(),
            self.epochs_wf(),
            self.manager.epoch < u64::MAX,
            mid.draining == self.manager.draining,
            mid.write == self.manager.write,
            mid.epoch == self.manager.epoch,
            mid.slab.len() >= self.manager.slab.len(),
            forall|i: int| #[trigger]
                self.manager.live(i) ==> mid.slab[i] == self.manager.slab[i],
            mid.live(next),
            next != mid.write,
            !mid.draining.contains(next),
            after.manager == mid.activated(next),
        ensures
            after.epochs_wf(),
    {
        let v = self.manager;
        assert(v.live(v.write));
        assert forall|k: int| 0 <= k < v.draining.len() implies after.manager.arena(
            #[trigger] v.draining[k],
        ) == v.arena(v.draining[k]) by {
            assert(v.live(v.draining[k]));
            assert(mid.draining.contains(mid.draining[k]));
        }
        assert(after.manager.arena(v.write).epoch == v.epoch);
        assert forall|k: int| 0 <= k < after.manager.draining.len() implies after.manager.arena(
            #[trigger] after.manager.draining[k],
        ).epoch < after.manager.epoch by {
            if k < v.draining.len() {
                assert(after.manager.draining[k] == v.draining[k]);
            }
        }
        assert forall|j: int, k: int|
            0 <= j < k < after.manager.draining.len() implies after.manager.arena(
            #[trigger] after.manager.draining[j],
        ).epoch < after.manager.arena(#[trigger] after.manager.draining[k]).epoch by {
            assert(after.manager.draining[j] == v.draining[j]);
            if k < v.draining.len() {
                assert(after.manager.draining[k] == v.draining[k]);
            }
        }
    }

    /// Rotating onto a new arena keeps the pool sound.
    pub proof fn extended_is_sound(self, region: Region)
        requires
            self.wf(),
            region.bytes.len() == self.manager.arena_size,
            self.manager.gap() < usize::MAX,
            self.manager.epoch < u64::MAX,
        ensures
            self.extended(region).wf(),
    {
        let v = self.manager;
        let gap = v.gap();
        let mid = v.grown(region);
        let after = self.extended(region);
        v.gap_is_free(0);
        v.growth_is_sound(region);
        if !self.reg.slots.full() {
            self.reg.placed_is_sound(gap);
            let placed = self.reg.placed(gap);
            assert(placed.next().held == placed.held && placed.next().slots == placed.slots);
            assert forall|i: int| #[trigger] placed.next().held.contains_key(i) implies 0 <= i
                < placed.next().span && placed.next().slots.taken.contains(
                placed.next().held[i],
            ) by {
                assert(placed.held.contains_key(i));
            }
        }
        assert forall|i: int| #[trigger] v.live(i) implies after.manager.live(i) && (i != v.write
            ==> after.manager.arena(i) == v.arena(i)) && i != gap by {}
        assert(after.manager.arena(gap) == ArenaView::unused(region).recycled(
            (v.epoch + 1) as u64,
        ));
        assert forall|i: int| #[trigger] after.manager.live(i) implies v.live(i) || i == gap by {}
        self.ledger_carries_over(after);
        assert forall|k: int| 0 <= k < after.manager.free.len() implies after.manager.idle(
            #[trigger] after.manager.free[k],
        ) by {
            assert(v.live(v.free[k]) && v.idle(v.free[k]));
        }
        assert(!mid.draining.contains(gap)) by {
            if mid.draining.contains(gap) {
                let k = choose|k: int| 0 <= k < mid.draining.len() && mid.draining[k] == gap;
                assert(v.live(v.draining[k]));
            }
        }
        self.retiring_keeps_order(after, mid, gap);
    }
}

impl RegistrationView {
    /// Pre-placing slots keeps the registration sound and uses up at most one
    /// slot.
    pub proof fn pre_placed_is_sound(self, i: int)
        requires
            self.wf(),
            0 <= i < usize::MAX,
        ensures
            self.pre_placed(i).wf(),
            self.pre_placed(i).slots.room() == if self.held.contains_key(i) || self.slots.full() {
                self.slots.room()
            } else {
                self.slots.room() - 1
            },
    {
        self.slots.room_counts();
        if !self.held.contains_key(i) && !self.slots.full() {
            self.placed_is_sound(i);
            let placed = self.placed(i);
            assert forall|j: int| #[trigger] placed.next().held.contains_key(j) implies 0 <= j
                < placed.next().span && placed.next().slots.taken.contains(
                placed.next().held[j],
            ) by {
                assert(placed.held.contains_key(j));
            }
        }
    }
}

} // verus!
