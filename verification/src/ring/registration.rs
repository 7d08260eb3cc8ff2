//! Registration slots and which arena holds which of them.
use vstd::prelude::*;

use crate::error::{OsError, TurbineError};
use crate::types::{ArenaIdx, SlotId};

verus! {

/// Bit `i` of `bits` is set.
spec fn bit(bits: u64, i: int) -> bool {
    0 <= i < 64 && (bits >> (i as u64)) & 1 == 1
}

/// Setting one bit leaves the others alone.
proof fn set_bit(bits: u64, at: u64)
    requires
        at < 64,
    ensures
        forall|i: int| #[trigger] bit(bits | (1u64 << at), i) <==> bit(bits, i) || i == at,
{
    assert forall|i: int| #[trigger] bit(bits | (1u64 << at), i) <==> bit(bits, i) || i == at by {
        if 0 <= i < 64 {
            let j = i as u64;
            assert(((bits | (1u64 << at)) >> j) & 1 == 1 <==> (bits >> j) & 1 == 1 || j == at)
                by (bit_vector)
                requires
                    j < 64,
                    at < 64,
            ;
        }
    }
}

/// Clearing one bit leaves the others alone.
proof fn clear_bit(bits: u64, at: u64)
    requires
        at < 64,
    ensures
        forall|i: int| #[trigger] bit(bits & !(1u64 << at), i) <==> bit(bits, i) && i != at,
{
    assert forall|i: int| #[trigger] bit(bits & !(1u64 << at), i) <==> bit(bits, i) && i != at by {
        if 0 <= i < 64 {
            let j = i as u64;
            assert(((bits & !(1u64 << at)) >> j) & 1 == 1 <==> (bits >> j) & 1 == 1 && j != at)
                by (bit_vector)
                requires
                    j < 64,
                    at < 64,
            ;
        }
    }
}

/// The complement has the bits that are clear.
proof fn complement_bits(bits: u64)
    ensures
        forall|i: int| 0 <= i < 64 ==> (#[trigger] bit(!bits, i) <==> !bit(bits, i)),
        !bits == 0 ==> forall|i: int| 0 <= i < 64 ==> #[trigger] bit(bits, i),
{
    assert forall|i: int| 0 <= i < 64 implies (#[trigger] bit(!bits, i) <==> !bit(bits, i)) by {
        let j = i as u64;
        assert((!bits >> j) & 1 == 1 <==> !((bits >> j) & 1 == 1)) by (bit_vector)
            requires
                j < 64,
        ;
    }
    if !bits == 0 {
        assert forall|i: int| 0 <= i < 64 implies #[trigger] bit(bits, i) by {
            let j = i as u64;
            assert((bits >> j) & 1 == 1) by (bit_vector)
                requires
                    j < 64,
                    !bits == 0,
            ;
        }
    }
}

/// Which of a fixed number of slots are taken.
#[verifier::ext_equal]
pub struct SlotsView {
    pub taken: Set<int>,
    pub capacity: nat,
}

impl SlotsView {
    /// Between one and 64 slots, and only existing slots are taken.
    pub open spec fn wf(self) -> bool {
        &&& 1 <= self.capacity <= 64
        &&& forall|s: int| #[trigger] self.taken.contains(s) ==> 0 <= s < self.capacity
    }

    /// The lowest slot from `k` on that is not taken, or the capacity.
    pub open spec fn lowest_from(self, k: int) -> int
        decreases self.capacity - k,
    {
        if k >= self.capacity {
            self.capacity as int
        } else if !self.taken.contains(k) {
            k
        } else {
            self.lowest_from(k + 1)
        }
    }

    /// The slot that is handed out next; the capacity if none is left.
    pub open spec fn lowest(self) -> int {
        self.lowest_from(0)
    }

    /// No slot is left.
    pub open spec fn full(self) -> bool {
        self.lowest() == self.capacity
    }

    /// How many slots are left.
    pub open spec fn room(self) -> int {
        self.capacity - self.taken.len()
    }

    /// The lowest free slot is free, and everything below it is taken.
    pub proof fn lowest_is_free(self, k: int)
        requires
            0 <= k <= self.capacity,
        ensures
            k <= self.lowest_from(k) <= self.capacity,
            self.lowest_from(k) < self.capacity ==> !self.taken.contains(self.lowest_from(k)),
            forall|s: int| k <= s < self.lowest_from(k) ==> self.taken.contains(s),
        decreases self.capacity - k,
    {
        if k < self.capacity && self.taken.contains(k) {
            self.lowest_is_free(k + 1);
        }
    }

    /// A free slot with everything below it taken is the lowest one.
    proof fn lowest_is_unique(self, k: int, s: int)
        requires
            0 <= k <= s <= self.capacity,
            s < self.capacity ==> !self.taken.contains(s),
            forall|i: int| k <= i < s ==> self.taken.contains(i),
        ensures
            self.lowest_from(k) == s,
        decreases s - k,
    {
        if k < s {
            self.lowest_is_unique(k + 1, s);
        }
    }

    /// Slots are only gone when as many are taken as there are.
    pub proof fn room_counts(self)
        requires
            self.wf(),
        ensures
            self.taken.finite(),
            0 <= self.room() <= self.capacity,
            self.full() <==> self.room() == 0,
    {
        self.lowest_is_free(0);
        let all = vstd::set_lib::set_int_range(0, self.capacity as int);
        vstd::set_lib::lemma_int_range(0, self.capacity as int);
        assert(self.taken.subset_of(all));
        vstd::set_lib::lemma_set_subset_finite(all, self.taken);
        vstd::set_lib::lemma_len_subset(self.taken, all);
        if self.full() {
            assert(all.subset_of(self.taken));
            assert(all =~= self.taken);
        } else {
            let rest = all.remove(self.lowest());
            assert(self.taken.subset_of(rest));
            vstd::set_lib::lemma_len_subset(self.taken, rest);
        }
    }
}

/// Bitmap-based slot allocator for io_uring buffer registration slots.
pub struct SlotAllocator {
    bitmap: u64,
    capacity: usize,
}

impl View for SlotAllocator {
    type V = SlotsView;

    closed spec fn view(&self) -> SlotsView {
        SlotsView {
            taken: Set::new(|i: int| bit(self.bitmap, i)),
            capacity: self.capacity as nat,
        }
    }
}

impl SlotAllocator {
    /// An allocator with all of `capacity` slots free.
    pub fn new(capacity: usize) -> (r: Self)
        requires
            1 <= capacity <= 64,
        ensures
            r@ == (SlotsView { taken: Set::empty(), capacity: capacity as nat }),
            r@.wf(),
    {
        let r = Self { bitmap: 0, capacity };
        proof {
            assert forall|i: int| !bit(0, i) by {
                if 0 <= i < 64 {
                    let j = i as u64;
                    assert((0u64 >> j) & 1 == 0) by (bit_vector);
                }
            }
            assert(r@.taken =~= Set::<int>::empty());
        }
        r
    }

    /// Takes the lowest free slot, if one is left.
    pub fn allocate(&mut self) -> (r: Option<SlotId>)
        requires
            old(self)@.wf(),
        ensures
            final(self)@.wf(),
            if old(self)@.full() {
                r is None && final(self)@ == old(self)@
            } else {
                &&& r matches Some(slot)
                &&& slot@ == old(self)@.lowest()
                &&& final(self)@ == (SlotsView {
                    taken: old(self)@.taken.insert(old(self)@.lowest()),
                    ..old(self)@
                })
            },
    {
        let ghost v = self@;
        let clear: u64 = !self.bitmap;
        proof {
            complement_bits(self.bitmap);
        }
        if clear == 0 {
            proof {
                assert forall|i: int| 0 <= i < v.capacity implies v.taken.contains(i) by {
                    assert(bit(self.bitmap, i));
                }
                v.lowest_is_unique(0, v.capacity as int);
            }
            return None;
        }
        let at: u32 = clear.trailing_zeros();
        proof {
            vstd::std_specs::bits::axiom_u64_trailing_zeros(clear);
            assert(at < 64);
            assert(bit(clear, at as int));
            assert(!bit(self.bitmap, at as int));
            assert forall|i: int| 0 <= i < at implies v.taken.contains(i) by {
                let j = i as u64;
                assert((clear >> j) & 1u64 == 0u64);
                assert(!bit(clear, i));
            }
        }
        if at as usize >= self.capacity {
            proof {
                v.lowest_is_unique(0, v.capacity as int);
            }
            return None;
        }
        proof {
            v.lowest_is_unique(0, at as int);
            set_bit(self.bitmap, at as u64);
        }
        self.bitmap = self.bitmap | (1u64 << (at as u64));
        proof {
            assert(self@.taken =~= v.taken.insert(at as int));
        }
        Some(SlotId::new(at as u16))
    }

    /// Gives a taken slot back.
    pub fn free(&mut self, slot: SlotId)
        requires
            old(self)@.wf(),
            old(self)@.taken.contains(slot@),
        ensures
            final(self)@.wf(),
            final(self)@ == (SlotsView {
                taken: old(self)@.taken.remove(slot@),
                ..old(self)@
            }),
    {
        let ghost v = self@;
        let at: u64 = slot.as_u16() as u64;
        proof {
            clear_bit(self.bitmap, at);
        }
        self.bitmap = self.bitmap & !(1u64 << at);
        proof {
            assert(self@.taken =~= v.taken.remove(slot@));
        }
    }

    /// Number of slots, free or taken.
    pub fn capacity(&self) -> (r: usize)
        ensures
            r == self@.capacity,
    {
        self.capacity
    }
}

/// What a registration is: whether the ring knows the buffers, which slots
/// are taken, which arena holds which slot, up to which index arenas have been
/// seen, and how often the mapping has changed.
#[verifier::ext_equal]
pub struct RegistrationView {
    pub registered: bool,
    pub slots: SlotsView,
    /// From slab index to slot.
    pub held: Map<int, int>,
    /// All arenas that ever held a slot have a slab index below this.
    pub span: nat,
    pub generation: u64,
}

impl RegistrationView {
    /// Every arena holds a taken slot of its own.
    pub open spec fn wf(self) -> bool {
        &&& self.slots.wf()
        &&& self.span <= usize::MAX
        &&& forall|i: int| #[trigger]
            self.held.contains_key(i) ==> 0 <= i < self.span && self.slots.taken.contains(
                self.held[i],
            )
        &&& forall|i: int, j: int|
            #![trigger self.held[i], self.held[j]]
            self.held.contains_key(i) && self.held.contains_key(j) && i != j ==> self.held[i]
                != self.held[j]
    }

    /// A registration with all of `slots` free.
    pub open spec fn initial(slots: usize) -> Self {
        RegistrationView {
            registered: false,
            slots: SlotsView { taken: Set::empty(), capacity: slots as nat },
            held: Map::empty(),
            span: 0,
            generation: 0,
        }
    }

    /// The lowest free slot given to the arena at `i`. A slot that the arena
    /// held before stays taken, though nobody holds it any more, until all slots
    /// are given back.
    pub open spec fn placed(self, i: int) -> Self {
        RegistrationView {
            slots: SlotsView {
                taken: self.slots.taken.insert(self.slots.lowest()),
                ..self.slots
            },
            held: self.held.insert(i, self.slots.lowest()),
            span: if self.span <= i {
                (i + 1) as nat
            } else {
                self.span
            },
            ..self
        }
    }

    /// Slots given to `arenas` one after the other, until none is left.
    pub open spec fn placed_all(self, arenas: Seq<int>) -> Self
        decreases arenas.len(),
    {
        if arenas.len() == 0 || self.slots.full() {
            self
        } else {
            self.placed(arenas[0]).placed_all(arenas.drop_first())
        }
    }

    /// For each slot, the arena that was last given it, when slots are given to
    /// `arenas` one after the other and `table` was the answer before.
    pub open spec fn table_of(self, arenas: Seq<int>, table: Seq<Option<int>>) -> Seq<Option<int>>
        decreases arenas.len(),
    {
        if arenas.len() == 0 || self.slots.full() {
            table
        } else {
            self.placed(arenas[0]).table_of(
                arenas.drop_first(),
                table.update(self.slots.lowest(), Some(arenas[0])),
            )
        }
    }

    /// The slot of the arena at `i` given back, if it holds one.
    pub open spec fn removed(self, i: int) -> Self {
        if self.held.contains_key(i) {
            RegistrationView {
                slots: SlotsView { taken: self.slots.taken.remove(self.held[i]), ..self.slots },
                held: self.held.remove(i),
                ..self
            }
        } else {
            self
        }
    }

    /// All slots given back, those that no arena holds any more included.
    pub open spec fn cleared(self) -> Self {
        RegistrationView {
            slots: SlotsView { taken: Set::empty(), ..self.slots },
            held: Map::empty(),
            ..self
        }
    }

    /// The next generation of the mapping.
    pub open spec fn next(self) -> Self {
        RegistrationView { generation: (self.generation + 1) as u64, ..self }
    }

    /// Giving out a free slot keeps the registration sound.
    pub proof fn placed_is_sound(self, i: int)
        requires
            self.wf(),
            0 <= i < usize::MAX,
            !self.slots.full(),
        ensures
            self.placed(i).wf(),
            self.placed(i).slots.room() == self.slots.room() - 1,
    {
        self.slots.lowest_is_free(0);
        self.slots.room_counts();
        let after = self.placed(i);
        assert forall|a: int, b: int|
            #![trigger after.held[a], after.held[b]]
            after.held.contains_key(a) && after.held.contains_key(b) && a != b implies after.held[a]
            != after.held[b] by {
            if a != i {
                assert(self.held.contains_key(a));
            }
            if b != i {
                assert(self.held.contains_key(b));
            }
        }
        assert forall|a: int| #[trigger] after.held.contains_key(a) implies 0 <= a < after.span
            && after.slots.taken.contains(after.held[a]) by {
            if a != i {
                assert(self.held.contains_key(a));
            }
        }
    }

    /// Giving a slot back keeps the registration sound.
    pub proof fn removed_is_sound(self, i: int)
        requires
            self.wf(),
        ensures
            self.removed(i).wf(),
    {
        let after = self.removed(i);
        assert forall|a: int| #[trigger] after.held.contains_key(a) implies 0 <= a < after.span
            && after.slots.taken.contains(after.held[a]) by {
            assert(self.held.contains_key(a));
            if self.held.contains_key(i) {
                assert(self.held[a] != self.held[i]);
            }
        }
        assert forall|a: int, b: int|
            #![trigger after.held[a], after.held[b]]
            after.held.contains_key(a) && after.held.contains_key(b) && a != b implies after.held[a]
            != after.held[b] by {
            assert(self.held.contains_key(a) && self.held.contains_key(b));
        }
    }

    /// Giving slots to several arenas keeps the registration sound, uses up one
    /// slot for each, and ends early only for want of slots.
    pub proof fn placed_all_is_sound(self, arenas: Seq<int>)
        requires
            self.wf(),
            forall|k: int| 0 <= k < arenas.len() ==> 0 <= #[trigger] arenas[k] < usize::MAX,
        ensures
            self.placed_all(arenas).wf(),
            self.placed_all(arenas).slots.room() == if arenas.len() <= self.slots.room() {
                self.slots.room() - arenas.len()
            } else {
                0
            },
            self.placed_all(arenas).generation == self.generation,
            self.placed_all(arenas).registered == self.registered,
            self.placed_all(arenas).slots.capacity == self.slots.capacity,
        decreases arenas.len(),
    {
        self.slots.room_counts();
        if arenas.len() > 0 && !self.slots.full() {
            self.placed_is_sound(arenas[0]);
            let rest = arenas.drop_first();
            assert forall|k: int| 0 <= k < rest.len() implies 0 <= #[trigger] rest[k]
                < usize::MAX by {
                assert(rest[k] == arenas[k + 1]);
            }
            self.placed(arenas[0]).placed_all_is_sound(rest);
        }
    }
}

/// The slots in a list of them, by position.
spec fn held_by(map: Seq<Option<SlotId>>) -> Map<int, int> {
    Map::new(
        |i: int| 0 <= i < map.len() && map[i] is Some,
        |i: int| map[i]->0@,
    )
}

/// Tracks io_uring buffer registration with dynamic slot management.
pub struct RingRegistration {
    registered: bool,
    slots: SlotAllocator,
    arena_slot_map: Vec<Option<SlotId>>,
    generation: u64,
}

impl View for RingRegistration {
    type V = RegistrationView;

    closed spec fn view(&self) -> RegistrationView {
        RegistrationView {
            registered: self.registered,
            slots: self.slots@,
            held: held_by(self.arena_slot_map@),
            span: self.arena_slot_map@.len(),
            generation: self.generation,
        }
    }
}

impl RingRegistration {
    /// A registration with `registration_slots` slots, none of them taken.
    pub fn new(registration_slots: usize) -> (r: Self)
        requires
            1 <= registration_slots <= 64,
        ensures
            r@ == RegistrationView::initial(registration_slots),
            r@.wf(),
    {
        let r = Self {
            registered: false,
            slots: SlotAllocator::new(registration_slots),
            arena_slot_map: Vec::new(),
            generation: 0,
        };
        proof {
            assert(r@ =~= RegistrationView::initial(registration_slots));
        }
        r
    }

    /// Makes the map long enough to hold an entry for `idx`.
    fn ensure_arena_capacity(&mut self, idx: ArenaIdx)
        requires
            idx@ < usize::MAX,
        ensures
            final(self).registered == old(self).registered,
            final(self).slots == old(self).slots,
            final(self).generation == old(self).generation,
            held_by(final(self).arena_slot_map@) == held_by(old(self).arena_slot_map@),
            final(self).arena_slot_map@.len() == if old(self).arena_slot_map@.len() <= idx@ {
                idx@ + 1
            } else {
                old(self).arena_slot_map@.len() as int
            },
    {
        let ghost before = self.arena_slot_map@;
        let needed: usize = idx.as_usize() + 1;
        while self.arena_slot_map.len() < needed
            invariant
                self.registered == old(self).registered,
                self.slots == old(self).slots,
                self.generation == old(self).generation,
                before == old(self).arena_slot_map@,
                needed == idx@ + 1,
                before.len() <= self.arena_slot_map@.len(),
                before.len() <= needed ==> self.arena_slot_map@.len() <= needed,
                before.len() > needed ==> self.arena_slot_map@.len() == before.len(),
                forall|i: int|
                    0 <= i < self.arena_slot_map@.len() ==> #[trigger] self.arena_slot_map@[i]
                        == if i < before.len() {
                        before[i]
                    } else {
                        None
                    },
            decreases needed - self.arena_slot_map@.len(),
        {
            self.arena_slot_map.push(None);
        }
        proof {
            assert(held_by(self.arena_slot_map@) =~= held_by(before));
        }
    }

    /// Gives the lowest free slot to an arena, if one is left.
    fn assign(&mut self, idx: ArenaIdx) -> (r: Option<SlotId>)
        requires
            old(self)@.wf(),
            idx@ < usize::MAX,
        ensures
            final(self)@.wf(),
            if old(self)@.slots.full() {
                r is None && final(self)@ == old(self)@
            } else {
                &&& r matches Some(slot)
                &&& slot@ == old(self)@.slots.lowest()
                &&& final(self)@ == old(self)@.placed(idx@)
            },
    {
        let ghost v = self@;
        match self.slots.allocate() {
            Some(slot) => {
                self.ensure_arena_capacity(idx);
                let ghost before = self.arena_slot_map@;
                self.arena_slot_map[idx.as_usize()] = Some(slot);
                proof {
                    ArenaIdx::view_in_range(idx);
                    assert(self@.held =~= held_by(before).insert(idx@, slot@));
                    assert(self@ =~= v.placed(idx@));
                    v.placed_is_sound(idx@);
                }
                Some(slot)
            },
            None => None,
        }
    }

    /// Prepares the registration of arenas as fixed buffers with a ring.
    ///
    /// Gives a slot to each arena in turn and returns, for each slot, which
    /// arena the ring is to be told about there; a slot without one is
    /// registered empty. If the slots run out, the slots given so far stay
    /// given. What the ring says goes to [`RingRegistration::finish_register`].
    pub fn register(&mut self, arenas: &Vec<ArenaIdx>) -> (r: Result<
        Vec<Option<ArenaIdx>>,
        TurbineError,
    >)
        requires
            old(self)@.wf(),
            forall|k: int| 0 <= k < arenas@.len() ==> (#[trigger] arenas@[k])@ < usize::MAX,
        ensures
            final(self)@.wf(),
            final(self)@ == old(self)@.placed_all(crate::epoch::model::indices(arenas@)),
            final(self)@.generation == old(self)@.generation,
            final(self)@.registered == old(self)@.registered,
            final(self)@.slots.capacity == old(self)@.slots.capacity,
            if arenas@.len() <= old(self)@.slots.room() {
                &&& r matches Ok(table)
                &&& slot_table(table@) == old(self)@.table_of(
                    crate::epoch::model::indices(arenas@),
                    empty_table(old(self)@.slots.capacity),
                )
            } else {
                r == Err::<Vec<Option<ArenaIdx>>, TurbineError>(
                    TurbineError::NoRegistrationSlot(arenas@[old(self)@.slots.room()]),
                )
            },
    {
        let ghost v = self@;
        let ghost all = crate::epoch::model::indices(arenas@);
        let capacity: usize = self.slots.capacity();
        let mut table: Vec<Option<ArenaIdx>> = Vec::with_capacity(capacity);
        let mut filled: usize = 0;
        while filled < capacity
            invariant
                filled <= capacity,
                table@.len() == filled,
                forall|s: int| 0 <= s < filled ==> #[trigger] table@[s] is None,
            decreases capacity - filled,
        {
            table.push(None);
            filled = filled + 1;
        }
        let mut k: usize = 0;
        proof {
            assert(slot_table(table@) =~= empty_table(v.slots.capacity));
            assert(all.skip(0) =~= all);
            v.slots.room_counts();
        }
        while k < arenas.len()
            invariant
                all == crate::epoch::model::indices(arenas@),
                forall|j: int| 0 <= j < arenas@.len() ==> (#[trigger] arenas@[j])@ < usize::MAX,
                self@.wf(),
                k <= arenas@.len(),
                k <= v.slots.room(),
                capacity == v.slots.capacity,
                self@.slots.capacity == v.slots.capacity,
                self@.slots.room() == v.slots.room() - k,
                self@.generation == v.generation,
                self@.registered == v.registered,
                table@.len() == capacity,
                v == old(self)@,
                self@.placed_all(all.skip(k as int)) == v.placed_all(all),
                self@.table_of(all.skip(k as int), slot_table(table@)) == v.table_of(
                    all,
                    empty_table(v.slots.capacity),
                ),
            decreases arenas@.len() - k,
        {
            let idx: ArenaIdx = arenas[k];
            let ghost mid = self@;
            let ghost rest = all.skip(k as int);
            let ghost before = table@;
            proof {
                assert(rest[0] == idx@);
                assert(rest.drop_first() =~= all.skip(k + 1));
                mid.slots.room_counts();
                mid.slots.lowest_is_free(0);
                ArenaIdx::view_in_range(idx);
            }
            match self.assign(idx) {
                Some(slot) => {
                    proof {
                        mid.placed_is_sound(idx@);
                    }
                    table[slot.as_u16() as usize] = Some(idx);
                    proof {
                        assert(slot_table(table@) =~= slot_table(before).update(
                            slot@,
                            Some(idx@),
                        ));
                    }
                },
                None => {
                    proof {
                        assert(k == v.slots.room());
                    }
                    return Err(TurbineError::NoRegistrationSlot(idx));
                },
            }
            k = k + 1;
        }
        proof {
            assert(all.skip(k as int).len() == 0);
        }
        Ok(table)
    }

    /// Completes a registration with what the ring said about it.
    pub fn finish_register(&mut self, outcome: Result<(), OsError>) -> (r: Result<
        (),
        TurbineError,
    >)
        requires
            old(self)@.wf(),
            outcome is Ok ==> old(self)@.generation < u64::MAX,
        ensures
            final(self)@.wf(),
            match outcome {
                Ok(_) => {
                    &&& r is Ok
                    &&& final(self)@ == (RegistrationView { registered: true, ..old(self)@ }).next()
                },
                Err(e) => {
                    &&& r == Err::<(), TurbineError>(TurbineError::Registration(e))
                    &&& final(self)@ == old(self)@
                },
            },
    {
        match outcome {
            Ok(_) => {
                self.registered = true;
                self.generation = self.generation + 1;
                Ok(())
            },
            Err(e) => Err(TurbineError::Registration(e)),
        }
    }

    /// Gives back every slot, and with it the slots that an arena had before it
    /// got another.
    pub fn release_all(&mut self)
        requires
            old(self)@.wf(),
        ensures
            final(self)@.wf(),
            final(self)@ == old(self)@.cleared(),
    {
        let ghost v = self@;
        let span: usize = self.arena_slot_map.len();
        let mut i: usize = 0;
        while i < span
            invariant
                v.span == span,
                self.arena_slot_map@.len() == span,
                i <= span,
                forall|j: int| 0 <= j < i ==> #[trigger] self.arena_slot_map@[j] is None,
                self.registered == v.registered,
                self.generation == v.generation,
                self.slots@ == v.slots,
            decreases span - i,
        {
            self.arena_slot_map[i] = None;
            i = i + 1;
        }
        self.slots = SlotAllocator::new(self.slots.capacity());
        proof {
            assert(self@.held =~= Map::<int, int>::empty());
            assert(self@ =~= v.cleared());
        }
    }

    /// Unregister previously registered buffers, given what the ring said when
    /// it was asked to forget them.
    ///
    /// Gives back all slots and clears the mapping, so that a subsequent
    /// `register` starts fresh without leaking slots. Does nothing if the
    /// buffers are not registered: the ring need not be asked then.
    pub fn unregister(&mut self, outcome: Result<(), OsError>) -> (r: Result<(), TurbineError>)
        requires
            old(self)@.wf(),
            old(self)@.registered && outcome is Ok ==> old(self)@.generation < u64::MAX,
        ensures
            final(self)@.wf(),
            if !old(self)@.registered {
                r is Ok && final(self)@ == old(self)@
            } else {
                match outcome {
                    Ok(_) => {
                        &&& r is Ok
                        &&& final(self)@ == (RegistrationView {
                            registered: false,
                            ..old(self)@
                        }).cleared().next()
                    },
                    Err(e) => {
                        &&& r == Err::<(), TurbineError>(TurbineError::Registration(e))
                        &&& final(self)@ == old(self)@
                    },
                }
            },
    {
        if self.registered {
            match outcome {
                Ok(_) => {},
                Err(e) => {
                    return Err(TurbineError::Registration(e));
                },
            }
            self.release_all();
            self.registered = false;
            self.generation = self.generation + 1;
        }
        Ok(())
    }

    /// Track a new arena in the slot map, for dynamic growth.
    ///
    /// Returns the slot, or an error if all slots are taken.
    pub fn register_arena(&mut self, slab_idx: ArenaIdx) -> (r: Result<SlotId, TurbineError>)
        requires
            old(self)@.wf(),
            !old(self)@.slots.full() ==> old(self)@.generation < u64::MAX,
            slab_idx@ < usize::MAX,
        ensures
            final(self)@.wf(),
            if old(self)@.slots.full() {
                &&& r == Err::<SlotId, TurbineError>(TurbineError::NoRegistrationSlot(slab_idx))
                &&& final(self)@ == old(self)@
            } else {
                &&& r matches Ok(slot)
                &&& slot@ == old(self)@.slots.lowest()
                &&& final(self)@ == old(self)@.placed(slab_idx@).next()
            },
    {
        match self.assign(slab_idx) {
            Some(slot) => {
                let ghost mid = self@;
                self.generation = self.generation + 1;
                proof {
                    assert(self@ == mid.next());
                }
                Ok(slot)
            },
            None => Err(TurbineError::NoRegistrationSlot(slab_idx)),
        }
    }

    /// Remove an arena from the slot map. Does nothing if it holds no slot.
    pub fn unregister_arena(&mut self, slab_idx: ArenaIdx)
        requires
            old(self)@.wf(),
            old(self)@.held.contains_key(slab_idx@) ==> old(self)@.generation < u64::MAX,
        ensures
            final(self)@.wf(),
            final(self)@ == if old(self)@.held.contains_key(slab_idx@) {
                old(self)@.removed(slab_idx@).next()
            } else {
                old(self)@
            },
    {
        let ghost v = self@;
        let ghost before = self.arena_slot_map@;
        match self.slot_for_arena(slab_idx) {
            Some(slot) => {
                proof {
                    v.removed_is_sound(slab_idx@);
                }
                self.arena_slot_map[slab_idx.as_usize()] = None;
                self.slots.free(slot);
                self.generation = self.generation + 1;
                proof {
                    assert(self@.held =~= held_by(before).remove(slab_idx@));
                    assert(self@ =~= v.removed(slab_idx@).next());
                }
            },
            None => {},
        }
    }

    /// Look up the io_uring slot for a given arena slab index.
    pub fn slot_for_arena(&self, slab_idx: ArenaIdx) -> (r: Option<SlotId>)
        ensures
            r is Some <==> self@.held.contains_key(slab_idx@),
            r matches Some(slot) ==> slot@ == self@.held[slab_idx@],
    {
        let at: usize = slab_idx.as_usize();
        if at < self.arena_slot_map.len() {
            self.arena_slot_map[at]
        } else {
            None
        }
    }

    /// Whether the ring knows the buffers.
    pub fn is_registered(&self) -> (r: bool)
        ensures
            r == self@.registered,
    {
        self.registered
    }

    /// How often the mapping has changed.
    pub fn generation(&self) -> (r: u64)
        ensures
            r == self@.generation,
    {
        self.generation
    }

    /// How many slab indices the slot map has an entry for.
    pub fn span(&self) -> (r: usize)
        ensures
            r == self@.span,
    {
        self.arena_slot_map.len()
    }
}

impl Default for RingRegistration {
    /// A registration with 32 slots.
    fn default() -> (r: Self)
        ensures
            r@ == RegistrationView::initial(32),
            r@.wf(),
    {
        Self::new(32)
    }
}

/// The arenas in a slot table, by slab index.
pub open spec fn slot_table(table: Seq<Option<ArenaIdx>>) -> Seq<Option<int>> {
    table.map_values(
        |entry: Option<ArenaIdx>|
            match entry {
                Some(idx) => Some(idx@),
                None => None,
            },
    )
}

/// A table of `capacity` slots without an arena.
pub open spec fn empty_table(capacity: nat) -> Seq<Option<int>> {
    Seq::new(capacity, |s: int| None)
}

/// Laws of the registration.
impl RegistrationView {
    /// The slot that an arena gets was nobody's, and nobody else's slot
    /// changes.
    pub proof fn placing_disturbs_nobody(self, i: int)
        requires
            self.wf(),
            0 <= i < usize::MAX,
            !self.slots.full(),
        ensures
            !self.slots.taken.contains(self.placed(i).held[i]),
            0 <= self.placed(i).held[i] < self.slots.capacity,
            forall|j: int|
                j != i ==> (#[trigger] self.placed(i).held.contains_key(j)
                    <==> self.held.contains_key(j)),
            forall|j: int|
                j != i && #[trigger] self.held.contains_key(j) ==> self.placed(i).held[j]
                    == self.held[j] && self.placed(i).held[j] != self.placed(i).held[i],
    {
        self.slots.lowest_is_free(0);
    }

    /// Taking an arena in and out again gives back the slot it got.
    pub proof fn remove_undoes_place(self, i: int)
        requires
            self.wf(),
            0 <= i < usize::MAX,
            !self.slots.full(),
            !self.held.contains_key(i),
        ensures
            self.placed(i).removed(i).held == self.held,
            self.placed(i).removed(i).slots == self.slots,
    {
        self.slots.lowest_is_free(0);
        assert(self.placed(i).removed(i).held =~= self.held);
        assert(self.placed(i).removed(i).slots.taken =~= self.slots.taken);
    }

    /// A slot given back is the next to be given out, unless a lower one is
    /// free.
    pub proof fn lowest_slot_is_reused(self, i: int)
        requires
            self.wf(),
            self.held.contains_key(i),
            self.held[i] <= self.slots.lowest(),
        ensures
            self.removed(i).slots.lowest() == self.held[i],
    {
        self.slots.lowest_is_free(0);
        let after = self.removed(i).slots;
        assert forall|s: int| 0 <= s < self.held[i] implies after.taken.contains(s) by {
            assert(self.slots.taken.contains(s));
        }
        after.lowest_is_unique(0, self.held[i]);
    }

    /// Every slot that is taken is held by an arena.
    pub open spec fn no_leak(self) -> bool {
        forall|s: int| #[trigger] self.slots.taken.contains(s) ==> self.held.values().contains(s)
    }

    /// As long as no arena is given a second slot, every taken slot is held by
    /// an arena.
    pub proof fn placing_newcomers_leaks_nothing(self, i: int)
        requires
            self.wf(),
            self.no_leak(),
            0 <= i < usize::MAX,
            !self.slots.full(),
            !self.held.contains_key(i),
        ensures
            self.placed(i).no_leak(),
            self.placed(i).next().no_leak(),
    {
        let after = self.placed(i);
        assert forall|s: int| #[trigger] after.slots.taken.contains(s) implies after.held.values().contains(
            s,
        ) by {
            if s == self.slots.lowest() {
                assert(after.held.contains_key(i) && after.held[i] == s);
            } else {
                assert(self.slots.taken.contains(s));
                let j = choose|j: int| #[trigger] self.held.contains_key(j) && self.held[j] == s;
                assert(after.held.contains_key(j) && after.held[j] == s);
            }
        }
    }

    /// Giving a slot back leaks nothing either.
    pub proof fn removing_leaks_nothing(self, i: int)
        requires
            self.wf(),
            self.no_leak(),
        ensures
            self.removed(i).no_leak(),
            self.removed(i).next().no_leak(),
    {
        let after = self.removed(i);
        assert forall|s: int| #[trigger] after.slots.taken.contains(s) implies after.held.values().contains(
            s,
        ) by {
            assert(self.slots.taken.contains(s));
            let j = choose|j: int| #[trigger] self.held.contains_key(j) && self.held[j] == s;
            assert(after.held.contains_key(j) && after.held[j] == s);
        }
    }

    /// After unregistering, every slot is free again, whatever arenas held
    /// before, and however often they were registered: the next registration
    /// starts fresh.
    pub proof fn unregister_frees_every_slot(self)
        requires
            self.wf(),
        ensures
            self.cleared().slots.taken == Set::<int>::empty(),
            self.cleared().slots.room() == self.slots.capacity,
            self.cleared().held == Map::<int, int>::empty(),
            self.cleared().no_leak(),
            self.cleared().wf(),
            self.cleared().slots == RegistrationView::initial(
                self.slots.capacity as usize,
            ).slots,
    {
    }

    /// Registering distinct arenas gives each of them the slot at which the
    /// ring is told about it, and lists nobody else.
    pub proof fn table_matches_slots(self, arenas: Seq<int>)
        requires
            self.wf(),
            arenas.no_duplicates(),
            arenas.len() <= self.slots.room(),
            forall|k: int| 0 <= k < arenas.len() ==> 0 <= #[trigger] arenas[k] < usize::MAX,
        ensures
            ({
                let after = self.placed_all(arenas);
                let table = self.table_of(arenas, empty_table(self.slots.capacity));
                &&& table.len() == self.slots.capacity
                &&& forall|k: int|
                    0 <= k < arenas.len() ==> after.held.contains_key(#[trigger] arenas[k])
                        && 0 <= after.held[arenas[k]] < table.len()
                        && table[after.held[arenas[k]]] == Some(arenas[k])
                &&& forall|s: int|
                    0 <= s < table.len() && #[trigger] table[s] is Some ==> arenas.contains(
                        table[s]->0,
                    ) && after.held[table[s]->0] == s
            }),
    {
        self.table_grows(arenas, empty_table(self.slots.capacity));
    }

    /// The table after some arenas: what it was, but for the slots that were
    /// free before and are now held by one of them.
    proof fn table_grows(self, arenas: Seq<int>, table: Seq<Option<int>>)
        requires
            self.wf(),
            arenas.no_duplicates(),
            arenas.len() <= self.slots.room(),
            forall|k: int| 0 <= k < arenas.len() ==> 0 <= #[trigger] arenas[k] < usize::MAX,
            table.len() == self.slots.capacity,
        ensures
            ({
                let after = self.placed_all(arenas);
                let full = self.table_of(arenas, table);
                &&& full.len() == table.len()
                &&& forall|j: int|
                    !arenas.contains(j) ==> (#[trigger] after.held.contains_key(j)
                        <==> self.held.contains_key(j)) && after.held[j] == self.held[j]
                &&& forall|k: int|
                    0 <= k < arenas.len() ==> after.held.contains_key(#[trigger] arenas[k])
                        && 0 <= after.held[arenas[k]] < table.len()
                        && !self.slots.taken.contains(after.held[arenas[k]])
                        && full[after.held[arenas[k]]] == Some(arenas[k])
                &&& forall|s: int|
                    0 <= s < table.len() ==> #[trigger] full[s] == table[s] || (full[s] is Some
                        && arenas.contains(full[s]->0) && after.held[full[s]->0] == s)
                &&& forall|s: int|
                    0 <= s < table.len() && self.slots.taken.contains(s) ==> #[trigger] full[s]
                        == table[s]
            }),
        decreases arenas.len(),
    {
        self.slots.room_counts();
        self.slots.lowest_is_free(0);
        if arenas.len() > 0 {
            let first = arenas[0];
            let rest = arenas.drop_first();
            let low = self.slots.lowest();
            let mid = self.placed(first);
            let wider = table.update(low, Some(first));
            self.placed_is_sound(first);
            assert forall|k: int| 0 <= k < rest.len() implies 0 <= #[trigger] rest[k]
                < usize::MAX by {
                assert(rest[k] == arenas[k + 1]);
            }
            assert(rest.no_duplicates());
            mid.table_grows(rest, wider);
            let after = self.placed_all(arenas);
            let full = self.table_of(arenas, table);
            assert(!rest.contains(first)) by {
                if rest.contains(first) {
                    let k = choose|k: int| 0 <= k < rest.len() && rest[k] == first;
                    assert(arenas[k + 1] == arenas[0]);
                }
            }
            assert(after.held.contains_key(first) <==> mid.held.contains_key(first));
            assert(after.held[first] == low);
            assert(mid.slots.taken.contains(low));
            assert(full[low] == wider[low]);
            assert(arenas[0] == first);
            assert(arenas.contains(first));
            assert forall|j: int| #[trigger] rest.contains(j) implies arenas.contains(j) by {
                let k = choose|k: int| 0 <= k < rest.len() && rest[k] == j;
                assert(arenas[k + 1] == j);
            }
            assert forall|j: int| !arenas.contains(j) implies (
            #[trigger] after.held.contains_key(j) <==> self.held.contains_key(j))
                && after.held[j] == self.held[j] by {
                assert(!rest.contains(j));
                assert(j != first);
            }
            assert forall|k: int| 0 <= k < arenas.len() implies after.held.contains_key(
                #[trigger] arenas[k],
            ) && 0 <= after.held[arenas[k]] < table.len() && !self.slots.taken.contains(
                after.held[arenas[k]],
            ) && full[after.held[arenas[k]]] == Some(arenas[k]) by {
                if k > 0 {
                    assert(rest[k - 1] == arenas[k]);
                    assert(!mid.slots.taken.contains(after.held[rest[k - 1]]));
                }
            }
        }
    }
}

} // verus!
