//! What the operations on the registration change, and what they leave alone.
use vstd::prelude::*;

use crate::ring::registration::{RegistrationView, SlotsView};

verus! {

impl SlotsView {
    /// `s` is the lowest of the free slots.
    pub open spec fn is_lowest_free(self, s: int) -> bool {
        &&& 0 <= s < self.capacity
        &&& !self.taken.contains(s)
        &&& forall|t: int| 0 <= t < s ==> self.taken.contains(t)
    }

    /// Slots have run out exactly if all of them are taken; otherwise the next one
    /// to be handed out is the lowest that is free.
    pub proof fn lowest_free_slot_is_next(self)
        ensures
            self.full() <==> forall|s: int| 0 <= s < self.capacity ==> self.taken.contains(s),
            !self.full() ==> self.is_lowest_free(self.lowest()),
    {
        self.lowest_is_free(0);
    }

    /// Slots are taken or left.
    pub proof fn slots_add_up(self)
        ensures
            self.room() + self.taken.len() == self.capacity,
    {
    }
}

impl RegistrationView {
    /// No arena but those in `arenas` has got, lost or changed a slot.
    pub open spec fn others_keep_slots(self, after: RegistrationView, arenas: Set<int>) -> bool {
        forall|j: int|
            !arenas.contains(j) ==> (#[trigger] after.held.contains_key(j)
                <==> self.held.contains_key(j)) && (self.held.contains_key(j) ==> after.held[j]
                == self.held[j])
    }

    /// A new registration has the slots that it was asked for, all of them free,
    /// and the ring knows nothing.
    pub proof fn new_registrations_are_empty(slots: usize)
        ensures
            RegistrationView::initial(slots).slots.capacity == slots,
            RegistrationView::initial(slots).slots.taken == Set::<int>::empty(),
            RegistrationView::initial(slots).held.dom() == Set::<int>::empty(),
            RegistrationView::initial(slots).generation == 0,
            RegistrationView::initial(slots).span == 0,
            !RegistrationView::initial(slots).registered,
    {
        assert(RegistrationView::initial(slots).held.dom() =~= Set::<int>::empty());
    }

    /// An arena that is given a slot gets the lowest free one. That slot is taken
    /// then; no other slot and no other arena is touched.
    pub proof fn arenas_get_the_lowest_free_slot(self, i: int)
        requires
            self.wf(),
            exists|s: int| 0 <= s < self.slots.capacity && !self.slots.taken.contains(s),
        ensures
            ({
                let after = self.placed(i);
                &&& after.held.contains_key(i)
                &&& self.slots.is_lowest_free(after.held[i])
                &&& forall|s: int| #[trigger]
                    after.slots.taken.contains(s) <==> self.slots.taken.contains(s) || s
                        == after.held[i]
                &&& self.others_keep_slots(after, set![i])
                &&& after.slots.capacity == self.slots.capacity
                &&& after.registered == self.registered
                &&& after.generation == self.generation
                &&& after.span >= self.span && after.span > i
                &&& after.span == self.span || after.span == i + 1
            }),
    {
        self.slots.lowest_free_slot_is_next();
    }

    /// A change counts one generation on and is otherwise what it is.
    pub proof fn generations_count_by_one(self)
        requires
            self.generation < u64::MAX,
        ensures
            self.next().generation == self.generation + 1,
            self.next().registered == self.registered,
            self.next().slots == self.slots,
            self.next().held == self.held,
            self.next().span == self.span,
    {
    }

    /// An arena that is taken out loses its slot, which is free then; no other
    /// slot and no other arena is touched. One without a slot changes nothing.
    pub proof fn arenas_give_back_their_slot(self, i: int)
        requires
            self.wf(),
        ensures
            ({
                let after = self.removed(i);
                &&& !after.held.contains_key(i)
                &&& self.held.contains_key(i) ==> forall|s: int| #[trigger]
                    after.slots.taken.contains(s) <==> self.slots.taken.contains(s) && s
                        != self.held[i]
                &&& !self.held.contains_key(i) ==> after == self
                &&& self.others_keep_slots(after, set![i])
                &&& after.slots.capacity == self.slots.capacity
                &&& after.registered == self.registered
                &&& after.generation == self.generation
                &&& after.span == self.span
            }),
    {
    }

    /// Clearing frees every slot and leaves no arena with one. The number of slots
    /// and what is counted stay.
    pub proof fn clearing_frees_everything(self)
        ensures
            forall|s: int| !(#[trigger] self.cleared().slots.taken.contains(s)),
            forall|i: int| !(#[trigger] self.cleared().held.contains_key(i)),
            self.cleared().slots.capacity == self.slots.capacity,
            self.cleared().registered == self.registered,
            self.cleared().generation == self.generation,
            self.cleared().span == self.span,
    {
    }

    /// Registering gives the arenas of a list new slots, in ascending order, each
    /// the lowest that is free when its turn comes. If there are too few, the
    /// first in the list get what there is. No other arena is touched, no slot is
    /// given back, and the ring is not told yet.
    pub proof fn registering_hands_slots_out_in_order(self, arenas: Seq<int>)
        requires
            self.wf(),
            arenas.no_duplicates(),
            forall|k: int| 0 <= k < arenas.len() ==> 0 <= #[trigger] arenas[k] < usize::MAX,
        ensures
            ({
                let after = self.placed_all(arenas);
                let n = if arenas.len() <= self.slots.room() {
                    arenas.len() as int
                } else {
                    self.slots.room()
                };
                let served = arenas.take(n);
                &&& self.others_keep_slots(after, served.to_set())
                &&& forall|k: int|
                    0 <= k < n ==> after.held.contains_key(#[trigger] arenas[k]) && 0
                        <= after.held[arenas[k]] < self.slots.capacity
                        && !self.slots.taken.contains(after.held[arenas[k]])
                &&& forall|j: int, k: int|
                    0 <= j < k < n ==> after.held[#[trigger] arenas[j]]
                        < after.held[#[trigger] arenas[k]]
                &&& forall|k: int, s: int|
                    0 <= k < n && 0 <= s < after.held[#[trigger] arenas[k]]
                        ==> #[trigger] after.slots.taken.contains(s)
                &&& forall|s: int| #[trigger]
                    self.slots.taken.contains(s) ==> after.slots.taken.contains(s)
                &&& after.slots.taken.len() == self.slots.taken.len() + n
                &&& after.slots.capacity == self.slots.capacity
                &&& after.registered == self.registered
                &&& after.generation == self.generation
            }),
        decreases arenas.len(),
    {
        self.slots.room_counts();
        self.slots.lowest_free_slot_is_next();
        let after = self.placed_all(arenas);
        let n = if arenas.len() <= self.slots.room() {
            arenas.len() as int
        } else {
            self.slots.room()
        };
        if arenas.len() > 0 && !self.slots.full() {
            let first = arenas[0];
            let rest = arenas.drop_first();
            let mid = self.placed(first);
            let low = self.slots.lowest();
            self.placed_is_sound(first);
            assert forall|k: int| 0 <= k < rest.len() implies 0 <= #[trigger] rest[k]
                < usize::MAX by {
                assert(rest[k] == arenas[k + 1]);
            }
            assert(rest.no_duplicates());
            mid.registering_hands_slots_out_in_order(rest);
            let m = n - 1;
            let served = arenas.take(n);
            let later = rest.take(m);
            assert(mid.slots.room() == self.slots.room() - 1);
            assert forall|j: int| #[trigger] served.to_set().contains(j) <==> j == first
                || later.to_set().contains(j) by {
                if served.contains(j) {
                    let k = choose|k: int| 0 <= k < served.len() && served[k] == j;
                    if k > 0 {
                        assert(later[k - 1] == j);
                    }
                }
                if later.contains(j) {
                    let k = choose|k: int| 0 <= k < later.len() && later[k] == j;
                    assert(served[k + 1] == j);
                }
                assert(served[0] == first);
            }
            assert(!later.to_set().contains(first)) by {
                if later.contains(first) {
                    let k = choose|k: int| 0 <= k < later.len() && later[k] == first;
                    assert(arenas[k + 1] == arenas[0]);
                }
            }
            assert(after.held.contains_key(first) && after.held[first] == low) by {
                assert(mid.held.contains_key(first));
                assert(after.held.contains_key(first) <==> mid.held.contains_key(first));
            }
            assert forall|j: int| !served.to_set().contains(j) implies (
            #[trigger] after.held.contains_key(j) <==> self.held.contains_key(j)) && (
            self.held.contains_key(j) ==> after.held[j] == self.held[j]) by {
                assert(!later.to_set().contains(j));
                assert(after.held.contains_key(j) <==> mid.held.contains_key(j));
            }
            assert forall|k: int| 0 <= k < n implies after.held.contains_key(#[trigger] arenas[k])
                && 0 <= after.held[arenas[k]] < self.slots.capacity && !self.slots.taken.contains(
                after.held[arenas[k]],
            ) && (k > 0 ==> after.held[arenas[k]] > low) by {
                if k > 0 {
                    assert(rest[k - 1] == arenas[k]);
                    assert(!mid.slots.taken.contains(after.held[rest[k - 1]]));
                    if after.held[arenas[k]] < low {
                        assert(self.slots.taken.contains(after.held[arenas[k]]));
                    }
                }
            }
            assert forall|j: int, k: int| 0 <= j < k < n implies after.held[#[trigger] arenas[j]]
                < after.held[#[trigger] arenas[k]] by {
                if j > 0 {
                    assert(rest[j - 1] == arenas[j] && rest[k - 1] == arenas[k]);
                }
            }
            assert forall|k: int, s: int|
                0 <= k < n && 0 <= s < after.held[#[trigger] arenas[k]] implies
                #[trigger] after.slots.taken.contains(s) by {
                if k > 0 {
                    assert(rest[k - 1] == arenas[k]);
                } else {
                    assert(self.slots.taken.contains(s));
                    assert(mid.slots.taken.contains(s));
                }
            }
            assert forall|s: int| #[trigger]
                self.slots.taken.contains(s) implies after.slots.taken.contains(s) by {
                assert(mid.slots.taken.contains(s));
            }
        } else {
            assert(n == 0);
            assert(arenas.take(0).to_set() =~= Set::<int>::empty());
        }
    }

    /// Pre-registering leaves an arena that has a slot alone, and gives one that
    /// has none the lowest that is free, if one is. No slot is given back, the
    /// ring is not told, and each slot given out counts as a change.
    pub proof fn pre_registering_fills_in(self, arenas: Seq<int>)
        requires
            self.wf(),
            forall|k: int| 0 <= k < arenas.len() ==> 0 <= #[trigger] arenas[k] < usize::MAX,
        ensures
            ({
                let after = self.pre_placed_all(arenas);
                &&& forall|i: int| #[trigger]
                    self.held.contains_key(i) ==> after.held.contains_key(i) && after.held[i]
                        == self.held[i]
                &&& forall|i: int| #[trigger]
                    after.held.contains_key(i) && !self.held.contains_key(i) ==> arenas.contains(i)
                        && 0 <= after.held[i] < self.slots.capacity && !self.slots.taken.contains(
                        after.held[i],
                    )
                &&& forall|k: int|
                    0 <= k < arenas.len() && !after.held.contains_key(#[trigger] arenas[k])
                        ==> forall|s: int|
                        0 <= s < self.slots.capacity ==> #[trigger] after.slots.taken.contains(s)
                &&& forall|s: int| #[trigger]
                    self.slots.taken.contains(s) ==> after.slots.taken.contains(s)
                &&& forall|s: int| #[trigger]
                    after.slots.taken.contains(s) && !self.slots.taken.contains(s)
                        ==> exists|i: int| #[trigger]
                        after.held.contains_key(i) && after.held[i] == s
                &&& after.slots.capacity == self.slots.capacity
                &&& after.registered == self.registered
                &&& self.generation + (after.slots.taken.len() - self.slots.taken.len())
                    <= u64::MAX ==> after.generation == self.generation + (
                after.slots.taken.len() - self.slots.taken.len())
                &&& after.slots.taken.len() >= self.slots.taken.len()
                &&& after.wf()
            }),
        decreases arenas.len(),
    {
        self.slots.room_counts();
        self.slots.lowest_free_slot_is_next();
        if arenas.len() > 0 {
            let first = arenas[0];
            let rest = arenas.drop_first();
            let mid = self.pre_placed(first);
            let after = self.pre_placed_all(arenas);
            self.pre_placed_is_sound(first);
            mid.slots.room_counts();
            assert forall|k: int| 0 <= k < rest.len() implies 0 <= #[trigger] rest[k]
                < usize::MAX by {
                assert(rest[k] == arenas[k + 1]);
            }
            mid.pre_registering_fills_in(rest);
            assert forall|j: int| #[trigger] rest.contains(j) implies arenas.contains(j) by {
                let k = choose|k: int| 0 <= k < rest.len() && rest[k] == j;
                assert(arenas[k + 1] == j);
            }
            assert(arenas[0] == first && arenas.contains(first));
            assert forall|i: int| #[trigger] self.held.contains_key(i) implies
                after.held.contains_key(i) && after.held[i] == self.held[i] by {
                assert(mid.held.contains_key(i) && mid.held[i] == self.held[i]);
            }
            assert forall|i: int| #[trigger]
                after.held.contains_key(i) && !self.held.contains_key(i) implies arenas.contains(i)
                && 0 <= after.held[i] < self.slots.capacity && !self.slots.taken.contains(
                after.held[i],
            ) by {
                if mid.held.contains_key(i) {
                    assert(i == first && after.held[i] == mid.held[i]);
                }
            }
            assert forall|k: int|
                0 <= k < arenas.len() && !after.held.contains_key(#[trigger] arenas[k]) implies (
            forall|s: int|
                0 <= s < self.slots.capacity ==> #[trigger] after.slots.taken.contains(s)) by {
                if k > 0 {
                    assert(rest[k - 1] == arenas[k]);
                } else {
                    assert(!mid.held.contains_key(first));
                    assert(self.slots.full());
                    assert forall|s: int| 0 <= s < self.slots.capacity implies
                        #[trigger] after.slots.taken.contains(s) by {
                        assert(mid.slots.taken.contains(s));
                    }
                }
            }
            assert forall|s: int| #[trigger]
                after.slots.taken.contains(s) && !self.slots.taken.contains(s) implies exists|i: int|
                #[trigger]
                after.held.contains_key(i) && after.held[i] == s by {
                if mid.slots.taken.contains(s) {
                    assert(mid.held.contains_key(first) && mid.held[first] == s);
                    assert(after.held.contains_key(first));
                }
            }
            assert forall|s: int| #[trigger]
                self.slots.taken.contains(s) implies after.slots.taken.contains(s) by {
                assert(mid.slots.taken.contains(s));
            }
        }
    }

    /// Pre-registering serves the arenas in the order of the list: the slots that
    /// are given out ascend, everything below them is taken, and no arena is
    /// served before one that still lacks a slot.
    pub proof fn pre_registering_keeps_the_order(self, arenas: Seq<int>)
        requires
            self.wf(),
            arenas.no_duplicates(),
            forall|k: int| 0 <= k < arenas.len() ==> 0 <= #[trigger] arenas[k] < usize::MAX,
        ensures
            ({
                let after = self.pre_placed_all(arenas);
                &&& forall|j: int, k: int|
                    0 <= j < k < arenas.len() && !self.held.contains_key(#[trigger] arenas[j])
                        && !self.held.contains_key(#[trigger] arenas[k])
                        && after.held.contains_key(arenas[k]) ==> after.held.contains_key(
                        arenas[j],
                    ) && after.held[arenas[j]] < after.held[arenas[k]]
                &&& forall|k: int, s: int|
                    0 <= k < arenas.len() && !self.held.contains_key(#[trigger] arenas[k])
                        && after.held.contains_key(arenas[k]) && 0 <= s < after.held[arenas[k]]
                        ==> #[trigger] after.slots.taken.contains(s)
            }),
        decreases arenas.len(),
    {
        self.slots.lowest_free_slot_is_next();
        if arenas.len() > 0 {
            let first = arenas[0];
            let rest = arenas.drop_first();
            let mid = self.pre_placed(first);
            let after = self.pre_placed_all(arenas);
            self.pre_placed_is_sound(first);
            assert forall|k: int| 0 <= k < rest.len() implies 0 <= #[trigger] rest[k]
                < usize::MAX by {
                assert(rest[k] == arenas[k + 1]);
            }
            assert(rest.no_duplicates());
            mid.pre_registering_keeps_the_order(rest);
            mid.pre_registering_fills_in(rest);
            mid.slots.lowest_free_slot_is_next();
            assert forall|k: int| 0 < k < arenas.len() implies #[trigger] arenas[k] != first
                && rest[k - 1] == arenas[k] && (mid.held.contains_key(arenas[k])
                <==> self.held.contains_key(arenas[k])) by {
                assert(arenas[k] != arenas[0]);
            }
            assert forall|j: int, k: int|
                0 <= j < k < arenas.len() && !self.held.contains_key(#[trigger] arenas[j])
                    && !self.held.contains_key(#[trigger] arenas[k]) && after.held.contains_key(
                    arenas[k],
                ) implies after.held.contains_key(arenas[j]) && after.held[arenas[j]]
                < after.held[arenas[k]] by {
                assert(rest[k - 1] == arenas[k]);
                if j > 0 {
                    assert(rest[j - 1] == arenas[j]);
                } else {
                    let s = after.held[arenas[k]];
                    assert(!mid.slots.taken.contains(s));
                    assert(mid.slots.capacity == self.slots.capacity);
                    assert(!self.slots.full()) by {
                        if self.slots.full() {
                            assert(mid == self);
                        }
                    }
                    assert(mid.held.contains_key(first) && mid.held[first] == self.slots.lowest());
                    assert(after.held[first] == mid.held[first]);
                    if s < self.slots.lowest() {
                        assert(self.slots.taken.contains(s));
                    }
                }
            }
            assert forall|k: int, s: int|
                0 <= k < arenas.len() && !self.held.contains_key(#[trigger] arenas[k])
                    && after.held.contains_key(arenas[k]) && 0 <= s < after.held[arenas[k]] implies
                #[trigger] after.slots.taken.contains(s) by {
                if k > 0 {
                    assert(rest[k - 1] == arenas[k]);
                } else if self.slots.full() {
                    assert(self.slots.taken.contains(s) || s >= self.slots.capacity);
                    if after.held.contains_key(first) {
                        assert(!mid.held.contains_key(first));
                        assert(rest.contains(first));
                        let n = choose|n: int| 0 <= n < rest.len() && rest[n] == first;
                        assert(arenas[n + 1] == arenas[0]);
                    }
                } else {
                    assert(mid.held[first] == self.slots.lowest());
                    assert(after.held[first] == mid.held[first]);
                    assert(self.slots.taken.contains(s));
                    assert(mid.slots.taken.contains(s));
                }
            }
        }
    }
}

} // verus!
