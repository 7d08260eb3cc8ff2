//! What the operations on arenas change, and what they leave alone.
use vstd::prelude::*;

use crate::config::PoolConfig;
use crate::epoch::arena::{ArenaState, ArenaView, PageRange, Region};
use crate::epoch::clock::ClockView;
use crate::epoch::manager::RotateResult;
use crate::epoch::model::ManagerView;
use crate::error::{OsError, TurbineError};

verus! {

/// `b` is the arena `a`, but for its state.
pub open spec fn same_but_state(a: ArenaView, b: ArenaView) -> bool {
    &&& b.id == a.id
    &&& b.bytes == a.bytes
    &&& b.used == a.used
    &&& b.next_buf_id == a.next_buf_id
    &&& b.acquired == a.acquired
    &&& b.returned == a.returned
    &&& b.epoch == a.epoch
}

/// `a` has handed out nothing, and nobody holds or has given back a lease.
pub open spec fn is_blank(a: ArenaView) -> bool {
    &&& a.used == 0
    &&& a.next_buf_id == 0
    &&& a.acquired == 0
    &&& a.returned == 0
}

/// `x` stands before `y` in `s`.
pub open spec fn comes_before(s: Seq<int>, x: int, y: int) -> bool {
    exists|j: int, k: int| 0 <= j < k < s.len() && #[trigger] s[j] == x && #[trigger] s[k] == y
}

/// A partial map gives no more than there is.
proof fn images_are_no_more(s: Seq<int>, f: spec_fn(int) -> Option<(int, PageRange)>)
    ensures
        s.filter_map(f).len() <= s.len(),
    decreases s.len(),
{
    reveal(Seq::filter_map);
    if s.len() > 0 {
        images_are_no_more(s.drop_last(), f);
    }
}

impl ArenaView {
    /// A new arena is blank, collected and over the whole region.
    pub proof fn new_arenas_are_blank(region: Region)
        ensures
            is_blank(ArenaView::unused(region)),
            ArenaView::unused(region).bytes == region.bytes,
            ArenaView::unused(region).id == region.id,
            ArenaView::unused(region).state == ArenaState::Collected,
            ArenaView::unused(region).epoch == 0,
    {
    }

    /// Bytes are handed out or available, and leases are out or given back.
    pub proof fn bytes_and_leases_add_up(self)
        requires
            self.wf(),
        ensures
            self.capacity() == self.bytes.len(),
            self.used + self.available() == self.bytes.len(),
            self.available() >= 0,
            self.returned + self.outstanding() == self.acquired,
            self.outstanding() >= 0,
    {
    }

    /// A lease takes the next bytes, the next buffer id and one count, and
    /// nothing else.
    pub proof fn leasing_takes_the_next_bytes(self, len: nat)
        ensures
            self.leased(len).used == self.used + len,
            self.next_buf_id < u32::MAX ==> self.leased(len).next_buf_id == self.next_buf_id + 1,
            self.next_buf_id == u32::MAX ==> self.leased(len).next_buf_id == 0,
            self.leased(len).acquired == self.acquired + 1,
            self.leased(len).returned == self.returned,
            self.leased(len).bytes == self.bytes,
            self.leased(len).id == self.id,
            self.leased(len).state == self.state,
            self.leased(len).epoch == self.epoch,
    {
    }

    /// A recycled arena is blank and writable for its new epoch, over the same
    /// memory.
    pub proof fn recycled_arenas_are_blank(self, epoch: u64)
        ensures
            is_blank(self.recycled(epoch)),
            self.recycled(epoch).state == ArenaState::Writable,
            self.recycled(epoch).epoch == epoch,
            self.recycled(epoch).bytes == self.bytes,
            self.recycled(epoch).id == self.id,
    {
    }

    /// Writing replaces the bytes from `start` on by the data, and no other byte
    /// and nothing else about the arena.
    pub proof fn writing_changes_only_the_range(self, start: int, data: Seq<u8>)
        requires
            0 <= start,
            start + data.len() <= self.bytes.len(),
        ensures
            self.with_bytes(start, data).bytes.len() == self.bytes.len(),
            forall|k: int|
                0 <= k < self.bytes.len() ==> #[trigger] self.with_bytes(start, data).bytes[k]
                    == if start <= k < start + data.len() {
                    data[k - start]
                } else {
                    self.bytes[k]
                },
            self.with_bytes(start, data).id == self.id,
            self.with_bytes(start, data).used == self.used,
            self.with_bytes(start, data).next_buf_id == self.next_buf_id,
            self.with_bytes(start, data).acquired == self.acquired,
            self.with_bytes(start, data).returned == self.returned,
            self.with_bytes(start, data).state == self.state,
            self.with_bytes(start, data).epoch == self.epoch,
    {
    }

    /// The kernel is told about every whole page behind the used part: wherever
    /// such a page begins, it is in the range, and the range is one of them on.
    pub proof fn every_idle_page_is_advised(self, page: int, at: int)
        requires
            self.wf(),
            crate::config::is_power_of_two(page),
            self.used <= at < self.bytes.len(),
            at % page == 0,
        ensures
            self.idle_pages(page) is Some,
            self.idle_pages(page)->0.start <= at,
            at < self.idle_pages(page)->0.start + self.idle_pages(page)->0.len,
    {
        let k = choose|k: nat| page == #[trigger] vstd::arithmetic::power2::pow2(k);
        vstd::arithmetic::power2::lemma_pow2_pos(k);
        crate::epoch::arena::round_up_is_next_multiple(self.used as int, page, at);
    }
}

impl ManagerView {
    /// The slab indices with an arena.
    pub open spec fn arenas_mapped(self) -> Set<int> {
        Set::new(|i: int| 0 <= i < self.slab.len() && self.slab[i] is Some)
    }

    /// The limits and sizes that a manager was made with.
    pub open spec fn settings_kept(self, after: ManagerView) -> bool {
        &&& after.arena_size == self.arena_size
        &&& after.page_size == self.page_size
        &&& after.max_free == self.max_free
        &&& after.max_arenas == self.max_arenas
    }

    /// Arenas are counted as many as there are.
    pub proof fn live_arenas_are_counted(self)
        requires
            self.wf(),
        ensures
            self.arenas_mapped().finite(),
            self.live_count() == self.arenas_mapped().len(),
            self.arenas_mapped().len() == 1 + self.draining.len() + self.free.len(),
            self.regions() == self.arenas_mapped().len() + self.unmapped.len(),
    {
        let list = self.live_from(0);
        self.live_list_is_exact(0);
        self.live_list_counts();
        list.unique_seq_to_set();
        assert forall|i: int| #[trigger] list.to_set().contains(i) <==> self.arenas_mapped().contains(
            i,
        ) by {
            assert(list.contains(i) <==> 0 <= i && self.live(i));
        }
        assert(list.to_set() =~= self.arenas_mapped());
    }

    /// A new manager has the arenas, the sizes and the limits of its
    /// configuration: the first arena is written, the others wait in the free
    /// pool, and nothing has happened yet.
    pub proof fn new_managers_follow_their_config(config: PoolConfig, regions: Seq<Region>)
        requires
            regions.len() == config.initial_arenas,
            config.initial_arenas >= 1,
        ensures
            ({
                let v = ManagerView::initial(config, regions);
                &&& v.arena_size == config.arena_size
                &&& v.page_size == config.page_size
                &&& v.max_free == config.max_free_arenas
                &&& v.max_arenas == config.max_total_arenas
                &&& v.slab.len() == config.initial_arenas
                &&& v.write == 0
                &&& v.epoch == 0
                &&& v.draining.len() == 0
                &&& v.free.len() == config.initial_arenas - 1
                &&& v.advice.len() == 0
                &&& v.unmapped.len() == 0
                &&& forall|k: int| 0 <= k < v.free.len() ==> #[trigger] v.free[k] == k + 1
                &&& forall|i: int|
                    0 <= i < v.slab.len() ==> (#[trigger] v.slab[i]) is Some && is_blank(
                        v.slab[i]->0,
                    ) && v.slab[i]->0.bytes == regions[i].bytes && v.slab[i]->0.id
                        == regions[i].id && v.slab[i]->0.epoch == 0 && v.slab[i]->0.state == if i
                        == 0 {
                        ArenaState::Writable
                    } else {
                        ArenaState::Collected
                    }
            }),
    {
    }

    /// The arena at position `k` of the drain queue has a lease out and retired
    /// at most two epochs ago.
    pub open spec fn young_and_leased(self, k: int) -> bool {
        let arena = self.slab[self.draining[k]]->0;
        arena.acquired > arena.returned && arena.epoch + 2 >= self.epoch
    }

    /// A sweep frees an arena of the drain queue exactly if its leases are all
    /// back and no arena before it in the queue is young and leased. The others
    /// stay in the queue.
    pub proof fn sweeps_free_idle_arenas(self, k: int)
        requires
            self.wf(),
            0 <= k < self.draining.len(),
        ensures
            ({
                let arena = self.slab[self.draining[k]]->0;
                let freed = arena.acquired == arena.returned && forall|j: int|
                    0 <= j < k ==> !(#[trigger] self.young_and_leased(j));
                &&& self.collected().free.contains(self.draining[k]) <==> freed
                &&& self.collected().draining.contains(self.draining[k]) <==> !freed
                &&& self.swept().contains(self.draining[k]) <==> freed
            }),
    {
        let i = self.draining[k];
        let arena = self.slab[i]->0;
        assert(self.live(i) && arena == self.arena(i) && arena.wf());
        let freed = arena.acquired == arena.returned && forall|j: int|
            0 <= j < k ==> !(#[trigger] self.young_and_leased(j));
        self.stop_in_range(0);
        self.sweep_splits();
        let stop = self.stop_from(0);
        assert forall|j: int| 0 <= j < self.draining.len() implies (
        #[trigger] self.young_and_leased(j) <==> self.blocks(self.draining[j])) by {
            assert(self.live(self.draining[j]));
            assert(self.arena(self.draining[j]).wf());
        }
        crate::epoch::model::filter_is_part(self.reached(), self.is_idle(), i);
        if k < stop {
            assert(self.reached()[k] == i);
            assert(self.reached().contains(i));
            assert forall|j: int| 0 <= j < k implies !(#[trigger] self.young_and_leased(j)) by {
                assert(!self.blocks(self.draining[j]));
            }
        } else {
            assert(!self.reached().contains(i)) by {
                if self.reached().contains(i) {
                    let j = choose|j: int| 0 <= j < self.reached().len() && self.reached()[j] == i;
                    assert(self.draining[j] == self.draining[k]);
                }
            }
            assert(self.young_and_leased(stop));
            if stop == k {
                assert(arena.acquired > arena.returned);
            }
        }
        assert(self.swept().contains(i) <==> freed);
        assert(self.draining.contains(i));
        if self.swept().contains(i) {
            let n = choose|n: int| 0 <= n < self.swept().len() && self.swept()[n] == i;
            assert(self.collected().free[self.free.len() + n] == i);
        }
        if self.collected().free.contains(i) {
            let n = choose|n: int|
                0 <= n < self.collected().free.len() && self.collected().free[n] == i;
            if n < self.free.len() {
                assert(self.draining[k] != self.free[n]);
            } else {
                assert(self.swept()[n - self.free.len()] == i);
            }
        }
    }

    /// A sweep adds what it frees to the end of the free pool, keeps both the
    /// freed and the remaining arenas in the order of the queue, and reports how
    /// many it freed.
    pub proof fn sweeps_keep_the_order(self)
        requires
            self.wf(),
        ensures
            self.collected().free.len() == self.free.len() + self.swept().len(),
            self.collected().draining.len() + self.swept().len() == self.draining.len(),
            forall|k: int|
                0 <= k < self.free.len() ==> #[trigger] self.collected().free[k] == self.free[k],
            forall|a: int, b: int|
                self.free.len() <= a < b < self.collected().free.len() ==> comes_before(
                    self.draining,
                    #[trigger] self.collected().free[a],
                    #[trigger] self.collected().free[b],
                ),
            forall|a: int, b: int|
                0 <= a < b < self.collected().draining.len() ==> comes_before(
                    self.draining,
                    #[trigger] self.collected().draining[a],
                    #[trigger] self.collected().draining[b],
                ),
    {
        let after = self.collected();
        self.sweep_splits();
        self.stop_in_range(0);
        let n = self.free.len() as int;
        assert forall|a: int, b: int| n <= a < b < after.free.len() implies comes_before(
            self.draining,
            #[trigger] after.free[a],
            #[trigger] after.free[b],
        ) by {
            let s = self.reached();
            crate::buffer::ledger::filter_in_order(s, self.is_idle(), a - n, b - n);
            let (j, k) = choose|j: int, k: int|
                0 <= j < k < s.len() && #[trigger] s[j] == self.swept()[a - n] && #[trigger] s[k]
                    == self.swept()[b - n];
            assert(self.draining[j] == after.free[a] && self.draining[k] == after.free[b]);
        }
        assert forall|a: int, b: int| 0 <= a < b < after.draining.len() implies comes_before(
            self.draining,
            #[trigger] after.draining[a],
            #[trigger] after.draining[b],
        ) by {
            self.kept_in_order(a, b);
            let (j, k) = choose|j: int, k: int|
                0 <= j < k < self.draining.len() && #[trigger] self.draining[j] == self.kept()[a]
                    && #[trigger] self.draining[k] == self.kept()[b];
            assert(self.draining[j] == after.draining[a] && self.draining[k] == after.draining[b]);
        }
    }
}

impl ManagerView {
    /// A sweep marks the arenas that it frees as collected. It touches no other
    /// arena, no memory and no lease, and neither the written arena, the epoch nor
    /// the settings.
    pub proof fn sweeps_only_mark_arenas(self, i: int)
        requires
            self.wf(),
            0 <= i < self.slab.len(),
        ensures
            ({
                let after = self.collected();
                &&& after.slab.len() == self.slab.len()
                &&& after.slab[i] is Some <==> self.slab[i] is Some
                &&& self.draining.contains(i) && after.free.contains(i) ==> same_but_state(
                    self.slab[i]->0,
                    after.slab[i]->0,
                ) && after.slab[i]->0.state == ArenaState::Collected
                &&& !(self.draining.contains(i) && after.free.contains(i)) ==> after.slab[i]
                    == self.slab[i]
                &&& after.write == self.write
                &&& after.epoch == self.epoch
                &&& after.unmapped == self.unmapped
                &&& self.settings_kept(after)
            }),
    {
        self.sweep_splits();
        self.collected_is_sound();
        let after = self.collected();
        if self.draining.contains(i) {
            let k = choose|k: int| 0 <= k < self.draining.len() && self.draining[k] == i;
            self.sweeps_free_idle_arenas(k);
            assert(self.live(self.draining[k]));
        } else {
            assert(!self.swept().contains(i));
        }
    }

    /// A sweep adds to what the kernel may take back: for each arena that it
    /// frees and that has whole pages left, the pages from the first boundary
    /// behind its used part to its end, and nothing else.
    pub proof fn sweeps_advise_only_freed_arenas(self, n: int)
        requires
            self.wf(),
            self.advice.len() <= n < self.collected().advice.len(),
        ensures
            ({
                let (i, pages) = self.collected().advice[n];
                let arena = self.slab[i]->0;
                &&& self.draining.contains(i) && self.collected().free.contains(i)
                &&& arena.used <= pages.start < arena.used + self.page_size
                &&& pages.start as int % self.page_size as int == 0
                &&& pages.start + pages.len == self.arena_size
                &&& pages.len > 0
            }),
            forall|k: int|
                0 <= k < self.advice.len() ==> #[trigger] self.collected().advice[k]
                    == self.advice[k],
    {
        let after = self.collected();
        self.sweep_splits();
        crate::epoch::model::mapped_advice(
            self.swept(),
            self.advice_fn(),
            n - self.advice.len(),
        );
        let j = choose|j: int|
            0 <= j < self.swept().len() && (self.advice_fn())(#[trigger] self.swept()[j]) == Some(
                after.advice[n],
            );
        let i = self.swept()[j];
        assert(self.swept().contains(i));
        let d = choose|d: int| 0 <= d < self.draining.len() && self.draining[d] == i;
        assert(self.live(self.draining[d]));
        assert(self.arena(i).wf());
        self.arena(i).idle_pages_are_unused(self.page_size as int);
        self.sweeps_free_idle_arenas(d);
    }

    /// For every arena that a sweep frees, the kernel may take back every whole
    /// page behind its used part, and a sweep adds no more than one range for each.
    pub proof fn sweeps_advise_every_idle_page(self, i: int, at: int)
        requires
            self.wf(),
            self.draining.contains(i),
            self.collected().free.contains(i),
            self.slab[i]->0.used <= at < self.slab[i]->0.bytes.len(),
            at % self.page_size as int == 0,
        ensures
            exists|n: int|
                self.advice.len() <= n < self.collected().advice.len() && (
                #[trigger] self.collected().advice[n]).0 == i
                    && self.collected().advice[n].1.start <= at
                    < self.collected().advice[n].1.start + self.collected().advice[n].1.len,
            self.collected().advice.len() <= self.advice.len() + (self.collected().free.len()
                - self.free.len()),
    {
        let after = self.collected();
        let d = choose|d: int| 0 <= d < self.draining.len() && self.draining[d] == i;
        assert(self.live(self.draining[d]));
        self.sweeps_free_idle_arenas(d);
        self.arena(i).every_idle_page_is_advised(self.page_size as int, at);
        let k = choose|k: int| 0 <= k < self.swept().len() && self.swept()[k] == i;
        crate::epoch::model::images_are_kept(self.swept(), self.advice_fn(), k);
        let fresh = self.swept().filter_map(self.advice_fn());
        let j = choose|j: int| 0 <= j < fresh.len() && #[trigger] fresh[j] == self.advice_at(i)->0;
        assert(after.advice[self.advice.len() + j] == fresh[j]);
        images_are_no_more(self.swept(), self.advice_fn());
    }

    /// What the kernel may take back now is what was queued for it, but for the
    /// pages that their arena has handed out again.
    pub proof fn due_advice_spares_used_pages(self, entry: (int, PageRange))
        ensures
            self.due_advice().contains(entry) <==> self.advice.contains(entry)
                && self.slab[entry.0]->0.used <= entry.1.start,
            self.due_advice().len() <= self.advice.len(),
    {
        let p = self.is_untouched();
        self.advice.lemma_filter_len(p);
        if self.due_advice().contains(entry) {
            let k = choose|k: int|
                0 <= k < self.due_advice().len() && self.due_advice()[k] == entry;
            crate::epoch::model::filtered_advice(self.advice, p, k);
            assert(p(entry));
        }
        if self.advice.contains(entry) && self.slab[entry.0]->0.used <= entry.1.start {
            let k = choose|k: int| 0 <= k < self.advice.len() && self.advice[k] == entry;
            assert(p(self.advice[k]));
            self.advice.lemma_filter_contains(p, k);
        }
    }

    /// The manager has retired the written arena to the end of the drain queue and
    /// writes to the blank arena at `to`, for the next epoch. No other arena, no
    /// setting and nothing queued for the kernel has changed.
    pub open spec fn moved_on(self, after: ManagerView, to: int) -> bool {
        &&& to != self.write
        &&& after.write == to
        &&& after.epoch == self.epoch + 1
        &&& after.draining.len() == self.draining.len() + 1
        &&& after.draining.last() == self.write
        &&& forall|k: int|
            0 <= k < self.draining.len() ==> #[trigger] after.draining[k] == self.draining[k]
        &&& after.slab[self.write] is Some
        &&& after.slab[self.write]->0.state == ArenaState::Retired
        &&& same_but_state(self.slab[self.write]->0, after.slab[self.write]->0)
        &&& after.slab[to] is Some
        &&& is_blank(after.slab[to]->0)
        &&& after.slab[to]->0.state == ArenaState::Writable
        &&& after.slab[to]->0.epoch == after.epoch
        &&& forall|i: int|
            0 <= i < self.slab.len() && i != self.write && i != to ==> #[trigger] after.slab[i]
                == self.slab[i]
        &&& after.advice == self.advice
        &&& after.unmapped == self.unmapped
        &&& self.settings_kept(after)
    }

    /// Rotating onto the last free arena takes it out of the free pool, and uses
    /// its memory as it is.
    pub proof fn reusing_moves_on(self)
        requires
            self.wf(),
            self.free.len() > 0,
            self.epoch < u64::MAX,
        ensures
            ({
                let after = self.popped().activated(self.free.last());
                &&& self.moved_on(after, self.free.last())
                &&& after.free.len() == self.free.len() - 1
                &&& forall|k: int|
                    0 <= k < after.free.len() ==> #[trigger] after.free[k] == self.free[k]
                &&& after.slab.len() == self.slab.len()
                &&& after.slab[self.free.last()]->0.bytes == self.slab[self.free.last()]->0.bytes
                &&& after.slab[self.free.last()]->0.id == self.slab[self.free.last()]->0.id
            }),
    {
        let to = self.free.last();
        assert(self.live(self.free[self.free.len() - 1]) && to != self.write);
        assert(self.live(self.write));
    }

    /// Rotating onto a new arena puts it into the first gap of the slab.
    pub proof fn growing_moves_on(self, region: Region)
        requires
            self.wf(),
            self.epoch < u64::MAX,
        ensures
            ({
                let after = self.grown(region).activated(self.gap());
                let at = after.write;
                &&& self.moved_on(after, at)
                &&& after.free == self.free
                &&& 0 <= at <= self.slab.len()
                &&& at < self.slab.len() ==> self.slab[at] is None && after.slab.len()
                    == self.slab.len()
                &&& at == self.slab.len() ==> after.slab.len() == self.slab.len() + 1
                &&& forall|i: int| 0 <= i < at ==> (#[trigger] self.slab[i]) is Some
                &&& after.slab[at]->0.bytes == region.bytes
                &&& after.slab[at]->0.id == region.id
            }),
    {
        self.gap_is_free(0);
        assert(self.live(self.write));
        let after = self.grown(region).activated(self.gap());
        assert forall|i: int| 0 <= i < after.write implies (#[trigger] self.slab[i]) is Some by {
            assert(self.live(i));
        }
    }

    /// While an arena is free, a rotation succeeds, takes the one that was freed
    /// last, and maps nothing.
    pub proof fn rotations_reuse_free_arenas<F: Fn(usize) -> Result<&'static mut [u8], OsError>>(
        self,
        after: ManagerView,
        source: F,
        r: Result<RotateResult, TurbineError>,
    )
        requires
            self.wf(),
            self.epoch < u64::MAX,
            self.free.len() > 0,
            crate::epoch::manager::rotates(self, after, source, r),
        ensures
            r is Ok,
            r->Ok_0.retired_epoch == self.epoch,
            r->Ok_0.new_epoch == self.epoch + 1,
            r->Ok_0.new_arena_idx is None,
            self.moved_on(after, self.free.last()),
            after.free.len() == self.free.len() - 1,
            forall|k: int| 0 <= k < after.free.len() ==> #[trigger] after.free[k] == self.free[k],
            after.slab.len() == self.slab.len(),
            after.slab[self.free.last()]->0.bytes == self.slab[self.free.last()]->0.bytes,
            after.slab[self.free.last()]->0.id == self.slab[self.free.last()]->0.id,
    {
        self.reusing_moves_on();
    }

    /// While no arena is free, a rotation sweeps the drain queue first: it does
    /// what a sweep and then a rotation would do.
    pub proof fn rotations_sweep_when_nothing_is_free<
        F: Fn(usize) -> Result<&'static mut [u8], OsError>,
    >(self, after: ManagerView, source: F, r: Result<RotateResult, TurbineError>)
        requires
            self.wf(),
            self.free.len() == 0,
            crate::epoch::manager::rotates(self, after, source, r),
        ensures
            crate::epoch::manager::rotates(self.collected(), after, source, r),
    {
        if self.swept().len() == 0 {
            self.empty_sweep_is_identity();
        }
    }

    /// While no arena is free and none can be swept, a rotation maps an arena,
    /// unless as many are mapped as may be: it fails only then, or if mapping
    /// fails, and then nothing changes. A limit of zero is none.
    pub proof fn rotations_map_arenas_within_the_limit<
        F: Fn(usize) -> Result<&'static mut [u8], OsError>,
    >(self, after: ManagerView, source: F, r: Result<RotateResult, TurbineError>)
        requires
            self.wf(),
            self.epoch < u64::MAX,
            self.free.len() == 0,
            self.collected().free.len() == 0,
            crate::epoch::manager::rotates(self, after, source, r),
        ensures
            self.max_arenas > 0 && self.arenas_mapped().len() >= self.max_arenas ==> (r matches Err(
                TurbineError::ArenaLimitExceeded { current, max },
            ) && current == self.arenas_mapped().len() && max == self.max_arenas),
            self.max_arenas == 0 || self.arenas_mapped().len() < self.max_arenas ==> r is Ok || (
            r matches Err(TurbineError::Mmap(os)) && call_ensures(
                source,
                (self.arena_size,),
                Err(os),
            )),
            r is Err ==> after == self,
            r matches Ok(done) ==> {
                &&& done.retired_epoch == self.epoch
                &&& done.new_epoch == self.epoch + 1
                &&& done.new_arena_idx matches Some(idx)
                &&& idx@ == after.write
                &&& self.moved_on(after, idx@)
                &&& after.free.len() == 0
                &&& 0 <= idx@ <= self.slab.len()
                &&& idx@ < self.slab.len() ==> self.slab[idx@] is None && after.slab.len()
                    == self.slab.len()
                &&& idx@ == self.slab.len() ==> after.slab.len() == self.slab.len() + 1
                &&& forall|i: int| 0 <= i < idx@ ==> (#[trigger] self.slab[i]) is Some
                &&& after.slab[idx@]->0.bytes.len() == self.arena_size
                &&& crate::epoch::manager::is_mapped(
                    source,
                    self.arena_size,
                    after.slab[idx@]->0.bytes,
                )
            },
    {
        self.live_arenas_are_counted();
        if r is Ok {
            let region = choose|region: Region|
                crate::epoch::manager::is_mapped(source, self.arena_size, region.bytes)
                    && region.bytes.len() == self.arena_size && after == (#[trigger] self.grown(
                    region,
                )).activated(self.gap());
            self.growing_moves_on(region);
        }
    }

    /// Shrinking removes the free arenas beyond the limit and no others, those at
    /// the end of the free pool, last one first. Their memory is queued to be
    /// unmapped in that order, and the kernel is no longer asked to take back
    /// pages of theirs. Nothing else changes.
    pub proof fn shrinking_removes_the_excess(self)
        requires
            self.wf(),
        ensures
            ({
                let after = self.shrunk();
                let gone = if self.free.len() > self.max_free {
                    self.free.len() - self.max_free
                } else {
                    0
                };
                &&& self.excess() == gone
                &&& self.dropped().len() == gone
                &&& after.free.len() == self.free.len() - gone
                &&& forall|k: int|
                    0 <= k < after.free.len() ==> #[trigger] after.free[k] == self.free[k]
                &&& after.unmapped.len() == self.unmapped.len() + gone
                &&& forall|k: int|
                    0 <= k < self.unmapped.len() ==> #[trigger] after.unmapped[k]
                        == self.unmapped[k]
                &&& forall|k: int|
                    0 <= k < gone ==> #[trigger] self.dropped()[k] == self.free[self.free.len() - 1
                        - k]
                &&& forall|k: int|
                    0 <= k < gone ==> #[trigger] after.unmapped[self.unmapped.len() + k]
                        == self.slab[self.free[self.free.len() - 1 - k]]->0.bytes
                &&& after.slab.len() == self.slab.len()
                &&& forall|i: int|
                    0 <= i < self.slab.len() ==> #[trigger] after.slab[i]
                        == if self.dropped().contains(i) {
                        None
                    } else {
                        self.slab[i]
                    }
                &&& after.draining == self.draining
                &&& after.write == self.write
                &&& after.epoch == self.epoch
                &&& forall|entry: (int, PageRange)| #[trigger]
                    after.advice.contains(entry) <==> self.advice.contains(entry)
                        && !self.dropped().contains(entry.0)
                &&& self.settings_kept(after)
            }),
        decreases self.free.len(),
    {
        let after = self.shrunk();
        if self.free.len() > self.max_free {
            let mid = self.cut();
            let last = self.free.last();
            self.drop_last_free_is_sound();
            mid.shrinking_removes_the_excess();
            let n = self.free.len() as int;
            let gone = n - self.max_free;
            assert(mid.free.len() == n - 1);
            assert(self.live(self.free[n - 1]));
            assert forall|k: int| 0 <= k < gone implies #[trigger] self.dropped()[k]
                == self.free[n - 1 - k] && (k > 0 ==> mid.dropped()[k - 1] == self.free[n - 1 - k])
                by {}
            assert forall|i: int| #[trigger] self.dropped().contains(i) <==> i == last
                || mid.dropped().contains(i) by {
                if self.dropped().contains(i) {
                    let k = choose|k: int| 0 <= k < gone && self.dropped()[k] == i;
                    if k > 0 {
                        assert(mid.dropped()[k - 1] == i);
                    }
                }
                if mid.dropped().contains(i) {
                    let k = choose|k: int| 0 <= k < mid.dropped().len() && mid.dropped()[k] == i;
                    assert(self.dropped()[k + 1] == i);
                }
                assert(self.dropped()[0] == last);
            }
            assert forall|k: int| 0 <= k < gone implies #[trigger] after.unmapped[
                self.unmapped.len() + k
            ] == self.slab[self.free[n - 1 - k]]->0.bytes by {
                if k > 0 {
                    assert(after.unmapped[mid.unmapped.len() + (k - 1)]
                        == mid.slab[mid.free[n - 2 - (k - 1)]]->0.bytes);
                    assert(self.free[n - 1 - k] != self.free[n - 1]);
                } else {
                    assert(after.unmapped[self.unmapped.len() as int]
                        == mid.unmapped[self.unmapped.len() as int]);
                }
            }
            assert forall|k: int| 0 <= k < self.unmapped.len() implies #[trigger] after.unmapped[k]
                == self.unmapped[k] by {
                assert(after.unmapped[k] == mid.unmapped[k]);
            }
            assert forall|entry: (int, PageRange)| #[trigger] after.advice.contains(entry)
                <==> self.advice.contains(entry) && !self.dropped().contains(entry.0) by {
                let p = ManagerView::not_about(last);
                assert(after.advice.contains(entry) <==> mid.advice.contains(entry)
                    && !mid.dropped().contains(entry.0));
                if mid.advice.contains(entry) {
                    let k = choose|k: int| 0 <= k < mid.advice.len() && mid.advice[k] == entry;
                    crate::epoch::model::filtered_advice(self.advice, p, k);
                }
                if self.advice.contains(entry) && entry.0 != last {
                    let k = choose|k: int| 0 <= k < self.advice.len() && self.advice[k] == entry;
                    self.advice.lemma_filter_contains(p, k);
                }
            }
        } else {
            assert(self.dropped() =~= Seq::<int>::empty());
        }
    }

    /// Looking for the arena of an epoch finds the first in the slab that carries
    /// it, and fails only if none does.
    pub proof fn epochs_are_looked_up_in_slab_order(self, epoch: u64)
        ensures
            ({
                let at = self.serving(epoch);
                &&& 0 <= at <= self.slab.len()
                &&& at < self.slab.len() ==> self.slab[at] is Some && self.slab[at]->0.epoch
                    == epoch
                &&& forall|i: int|
                    0 <= i < at && (#[trigger] self.slab[i]) is Some ==> self.slab[i]->0.epoch
                        != epoch
            }),
    {
        self.serving_is_first(0, epoch);
        let at = self.serving(epoch);
        assert forall|i: int|
            0 <= i < at && (#[trigger] self.slab[i]) is Some implies self.slab[i]->0.epoch
            != epoch by {
            assert(self.live(i));
        }
    }

    /// The list of arenas names every slab entry with an arena, in slab order,
    /// and no other.
    pub proof fn listed_arenas_are_the_mapped_ones(self)
        ensures
            forall|i: int| #[trigger]
                self.live_from(0).contains(i) <==> self.arenas_mapped().contains(i),
            forall|a: int, b: int|
                0 <= a < b < self.live_from(0).len() ==> #[trigger] self.live_from(0)[a]
                    < #[trigger] self.live_from(0)[b],
    {
        self.live_list_is_exact(0);
        assert forall|i: int| #[trigger]
            self.live_from(0).contains(i) <==> self.arenas_mapped().contains(i) by {
            assert(self.live_from(0).contains(i) <==> 0 <= i && self.live(i));
        }
    }

    /// Putting another arena in place changes that entry of the slab alone.
    pub proof fn replacing_an_arena_is_local(self, i: int, arena: ArenaView)
        requires
            0 <= i < self.slab.len(),
        ensures
            ({
                let after = self.with_arena(i, arena);
                &&& after.slab.len() == self.slab.len()
                &&& after.slab[i] == Some(arena)
                &&& forall|j: int|
                    0 <= j < self.slab.len() && j != i ==> #[trigger] after.slab[j]
                        == self.slab[j]
                &&& after.write == self.write
                &&& after.draining == self.draining
                &&& after.free == self.free
                &&& after.epoch == self.epoch
                &&& after.advice == self.advice
                &&& after.unmapped == self.unmapped
                &&& self.settings_kept(after)
            }),
    {
    }
}

impl ClockView {
    /// The positions among the first `n` of the ring whose arena is retired.
    pub open spec fn retired_among(self, n: int) -> Set<int> {
        Set::new(
            |i: int| 0 <= i < n && i < self.arenas.len() && self.arenas[i].state
                == ArenaState::Retired,
        )
    }

    /// The positions of the ring whose arena is retired and carries `epoch`.
    pub open spec fn retired_in(self, epoch: u64) -> Set<int> {
        Set::new(
            |i: int|
                0 <= i < self.arenas.len() && self.arenas[i].state == ArenaState::Retired
                    && self.arenas[i].epoch == epoch,
        )
    }

    /// A new clock writes its first arena, in epoch 0. All arenas are blank, over
    /// the regions in their order, and the others are collected.
    pub proof fn new_clocks_write_the_first_arena(regions: Seq<Region>)
        ensures
            ({
                let v = ClockView::initial(regions);
                &&& v.write == 0
                &&& v.epoch == 0
                &&& v.arenas.len() == regions.len()
                &&& forall|i: int|
                    0 <= i < v.arenas.len() ==> is_blank(#[trigger] v.arenas[i])
                        && v.arenas[i].bytes == regions[i].bytes && v.arenas[i].id
                        == regions[i].id && v.arenas[i].epoch == 0 && v.arenas[i].state == if i
                        == 0 {
                        ArenaState::Writable
                    } else {
                        ArenaState::Collected
                    }
            }),
    {
    }

    /// A rotation of the clock is refused exactly if the arena after the written
    /// one, around the ring, has a lease out; the error names its epoch and how
    /// many. The written arena is retired either way. If it is not refused, that
    /// next arena starts over for the next epoch. No other arena changes.
    pub proof fn rotations_move_round_the_ring(
        self,
        after: ClockView,
        r: Result<(u64, u64), TurbineError>,
    )
        requires
            self.wf(),
            self.epoch < u64::MAX,
            self.turns_to(after, r),
        ensures
            ({
                let n = self.arenas.len() as int;
                let to = (self.write + 1) % n;
                let next = self.arenas[to];
                &&& after.arenas.len() == n
                &&& forall|i: int|
                    0 <= i < n && i != self.write && i != to ==> #[trigger] after.arenas[i]
                        == self.arenas[i]
                &&& if next.acquired > next.returned {
                    &&& r matches Err(TurbineError::EpochNotCollectable(epoch, leases))
                    &&& epoch == next.epoch
                    &&& leases == next.acquired - next.returned
                    &&& after.write == self.write
                    &&& after.epoch == self.epoch
                    &&& same_but_state(self.arenas[self.write], after.arenas[self.write])
                    &&& after.arenas[self.write].state == ArenaState::Retired
                    &&& to != self.write ==> after.arenas[to] == next
                } else {
                    &&& r matches Ok((retired, active))
                    &&& retired == self.epoch
                    &&& active == self.epoch + 1
                    &&& after.write == to
                    &&& after.epoch == self.epoch + 1
                    &&& is_blank(after.arenas[to])
                    &&& after.arenas[to].state == ArenaState::Writable
                    &&& after.arenas[to].epoch == after.epoch
                    &&& after.arenas[to].bytes == next.bytes
                    &&& after.arenas[to].id == next.id
                    &&& to != self.write ==> same_but_state(
                        self.arenas[self.write],
                        after.arenas[self.write],
                    ) && after.arenas[self.write].state == ArenaState::Retired
                }
            }),
    {
        let n = self.arenas.len() as int;
        if self.write + 1 == n {
            vstd::arithmetic::div_mod::lemma_mod_self_0(n);
        } else {
            vstd::arithmetic::div_mod::lemma_small_mod((self.write + 1) as nat, n as nat);
        }
        assert((self.write + 1) % n == self.next());
        assert(self.arenas[self.next()].wf());
    }

    /// Collecting an epoch is about the first arena of the ring that carries it.
    /// It fails exactly if there is none or a lease on it is out, and then nothing
    /// changes. Otherwise that arena is collected, and nothing else changes.
    pub proof fn collecting_marks_the_arena_of_the_epoch(
        self,
        after: ClockView,
        epoch: u64,
        r: Result<(), TurbineError>,
        at: int,
    )
        requires
            self.wf(),
            self.collects(after, epoch, r),
            0 <= at <= self.arenas.len(),
            at < self.arenas.len() ==> self.arenas[at].epoch == epoch,
            forall|i: int| 0 <= i < at ==> (#[trigger] self.arenas[i]).epoch != epoch,
        ensures
            at == self.arenas.len() ==> after == self && (r matches Err(
                TurbineError::EpochNotFound(e),
            ) && e == epoch),
            at < self.arenas.len() && self.arenas[at].acquired > self.arenas[at].returned
                ==> after == self && (r matches Err(TurbineError::EpochNotCollectable(e, leases))
                && e == epoch && leases == self.arenas[at].acquired - self.arenas[at].returned),
            at < self.arenas.len() && self.arenas[at].acquired == self.arenas[at].returned ==> {
                &&& r is Ok
                &&& after.arenas.len() == self.arenas.len()
                &&& after.arenas[at].state == ArenaState::Collected
                &&& same_but_state(self.arenas[at], after.arenas[at])
                &&& forall|i: int|
                    0 <= i < self.arenas.len() && i != at ==> #[trigger] after.arenas[i]
                        == self.arenas[i]
                &&& after.write == self.write
                &&& after.epoch == self.epoch
            },
    {
        self.serving_is_first(0, epoch);
        let found = self.serving(epoch);
        if found < at {
            assert(self.arenas[found].epoch != epoch);
        }
        if at < found {
            assert(self.arenas[at].epoch != epoch);
        }
        assert(found == at);
        if at < self.arenas.len() {
            assert(self.arenas[at].wf());
        }
    }

    /// The epochs found among the first arenas of the ring.
    proof fn retired_epochs_are_listed(self, n: int, epoch: u64)
        requires
            0 <= n <= self.arenas.len(),
        ensures
            self.retired_among(n).finite(),
            self.retired_epochs(n).len() == self.retired_among(n).len(),
            self.retired_in(epoch).intersect(self.retired_among(n)).finite(),
            self.retired_epochs(n).to_multiset().count(epoch) == self.retired_in(epoch).intersect(
                self.retired_among(n),
            ).len(),
        decreases n,
    {
        broadcast use vstd::seq_lib::group_to_multiset_ensures;

        if n <= 0 {
            assert(self.retired_among(n) =~= Set::<int>::empty());
            assert(self.retired_in(epoch).intersect(self.retired_among(n)) =~= Set::<int>::empty());
        } else {
            self.retired_epochs_are_listed(n - 1, epoch);
            let k = n - 1;
            let fewer = self.retired_among(k);
            if self.arenas[k].state == ArenaState::Retired {
                assert(self.retired_among(n) =~= fewer.insert(k));
                vstd::seq_lib::to_multiset_build(self.retired_epochs(k), self.arenas[k].epoch);
                if self.arenas[k].epoch == epoch {
                    assert(self.retired_in(epoch).intersect(self.retired_among(n))
                        =~= self.retired_in(epoch).intersect(fewer).insert(k));
                } else {
                    assert(self.retired_in(epoch).intersect(self.retired_among(n))
                        =~= self.retired_in(epoch).intersect(fewer));
                }
            } else {
                assert(self.retired_among(n) =~= fewer);
            }
        }
    }

    /// The retained epochs are those of the retired arenas, whatever these have
    /// handed out or leased, and of no others: an epoch is listed once for each
    /// retired arena that carries it, so there are as many entries as retired
    /// arenas. The oldest comes first.
    pub proof fn retained_epochs_are_the_retired_ones(self, r: Seq<u64>, epoch: u64)
        requires
            self.retains(r),
        ensures
            r.contains(epoch) <==> exists|i: int|
                0 <= i < self.arenas.len() && (#[trigger] self.arenas[i]).epoch == epoch
                    && self.arenas[i].state == ArenaState::Retired,
            r.to_multiset().count(epoch) == self.retired_in(epoch).len(),
            r.len() == self.retired_among(self.arenas.len() as int).len(),
            forall|j: int, k: int| 0 <= j < k < r.len() ==> r[j] <= r[k],
    {
        broadcast use vstd::seq_lib::group_to_multiset_ensures;

        let n = self.arenas.len() as int;
        let all = self.retired_epochs(n);
        self.retired_epochs_are_listed(n, epoch);
        assert(self.retired_in(epoch).intersect(self.retired_among(n)) =~= self.retired_in(epoch));
        assert(r.len() == r.to_multiset().len());
        assert(all.len() == all.to_multiset().len());
        assert(r.contains(epoch) <==> r.to_multiset().count(epoch) > 0);
        if self.retired_in(epoch).len() > 0 {
            let i = self.retired_in(epoch).choose();
            assert(self.retired_in(epoch).contains(i));
            assert(self.arenas[i].epoch == epoch);
        }
        if exists|i: int|
            0 <= i < self.arenas.len() && (#[trigger] self.arenas[i]).epoch == epoch
                && self.arenas[i].state == ArenaState::Retired {
            let i = choose|i: int|
                0 <= i < self.arenas.len() && (#[trigger] self.arenas[i]).epoch == epoch
                    && self.arenas[i].state == ArenaState::Retired;
            assert(self.retired_in(epoch).contains(i));
            vstd::set_lib::lemma_set_empty_equivalency_len(self.retired_in(epoch));
        }
    }

    /// Looking for the arena of an epoch finds the first in the ring that carries
    /// it, and fails only if none does.
    pub proof fn epochs_are_looked_up_in_ring_order(self, epoch: u64)
        ensures
            ({
                let at = self.serving(epoch);
                &&& 0 <= at <= self.arenas.len()
                &&& at < self.arenas.len() ==> self.arenas[at].epoch == epoch
                &&& forall|i: int| 0 <= i < at ==> (#[trigger] self.arenas[i]).epoch != epoch
            }),
    {
        self.serving_is_first(0, epoch);
    }

    /// Putting another arena in place changes that position of the ring alone.
    pub proof fn replacing_an_arena_of_the_ring_is_local(self, i: int, arena: ArenaView)
        requires
            0 <= i < self.arenas.len(),
        ensures
            ({
                let after = self.with_arena(i, arena);
                &&& after.arenas.len() == self.arenas.len()
                &&& after.arenas[i] == arena
                &&& forall|j: int|
                    0 <= j < self.arenas.len() && j != i ==> #[trigger] after.arenas[j]
                        == self.arenas[j]
                &&& after.write == self.write
                &&& after.epoch == self.epoch
            }),
    {
    }
}

} // verus!
