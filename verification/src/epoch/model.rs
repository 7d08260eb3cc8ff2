//! The mathematical model of the arena manager and the facts that its
//! operations rest on.
use vstd::prelude::*;

use crate::config::PoolConfig;
use crate::epoch::arena::{ArenaState, ArenaView, PageRange, Region};
use crate::types::ArenaIdx;

verus! {

/// If a draining arena that retired within this many epochs of the current one
/// still has outstanding leases, the arenas behind it are not looked at: they
/// almost certainly have leases too, and the next sweep looks again.
pub const COLLECT_YOUNG_EPOCHS: u64 = 2;

/// The slab indices that a list of typed indices stands for.
pub open spec fn indices(list: Seq<ArenaIdx>) -> Seq<int> {
    list.map_values(|i: ArenaIdx| i@)
}

/// What an arena manager is: the slab, which arena is written, which are
/// draining (oldest first), which are free, the epoch, the limits, and what it
/// wants done with memory that it no longer needs.
#[verifier::ext_equal]
pub struct ManagerView {
    pub slab: Seq<Option<ArenaView>>,
    pub write: int,
    pub draining: Seq<int>,
    pub free: Seq<int>,
    pub epoch: u64,
    pub arena_size: usize,
    pub page_size: usize,
    pub max_free: usize,
    /// 0 means unlimited.
    pub max_arenas: usize,
    /// Pages that sweeps found idle, for the kernel to take back.
    pub advice: Seq<(int, PageRange)>,
    /// Memory of dropped arenas, to be unmapped.
    pub unmapped: Seq<Seq<u8>>,
}

impl ManagerView {
    /// `i` is the slab index of a live arena.
    pub open spec fn live(self, i: int) -> bool {
        0 <= i < self.slab.len() && self.slab[i] is Some
    }

    /// The arena at a live index.
    pub open spec fn arena(self, i: int) -> ArenaView {
        self.slab[i]->0
    }

    /// The arena that takes allocations.
    pub open spec fn current(self) -> ArenaView {
        self.arena(self.write)
    }

    /// Number of live arenas: the written one, the draining and the free ones.
    pub open spec fn live_count(self) -> nat {
        1 + self.draining.len() + self.free.len()
    }

    /// The pages in `entry` are the end of a live arena.
    pub open spec fn names_end(self, entry: (int, PageRange)) -> bool {
        &&& self.live(entry.0)
        &&& entry.1.start + entry.1.len == self.arena_size
    }

    /// The arena has handed out nothing of the pages in `entry`.
    pub open spec fn untouched(self, entry: (int, PageRange)) -> bool {
        self.arena(entry.0).used <= entry.1.start
    }

    pub open spec fn is_untouched(self) -> spec_fn((int, PageRange)) -> bool {
        |entry: (int, PageRange)| self.untouched(entry)
    }

    /// What the kernel may take back now: the pages that sweeps found idle, but
    /// for those that their arena has put to use again since.
    pub open spec fn due_advice(self) -> Seq<(int, PageRange)> {
        self.advice.filter(self.is_untouched())
    }

    /// Each live arena is in exactly one place: written, draining or free. All
    /// have the configured size and sound counters. The pages for the kernel
    /// belong to live arenas.
    pub open spec fn wf(self) -> bool {
        &&& self.live(self.write)
        &&& forall|k: int|
            0 <= k < self.draining.len() ==> self.live(#[trigger] self.draining[k])
                && self.draining[k] != self.write
        &&& forall|k: int|
            0 <= k < self.free.len() ==> self.live(#[trigger] self.free[k]) && self.free[k]
                != self.write
        &&& self.draining.no_duplicates()
        &&& self.free.no_duplicates()
        &&& forall|j: int, k: int|
            0 <= j < self.draining.len() && 0 <= k < self.free.len()
                ==> #[trigger] self.draining[j] != #[trigger] self.free[k]
        &&& forall|i: int| #[trigger]
            self.live(i) ==> i == self.write || self.draining.contains(i) || self.free.contains(i)
        &&& forall|i: int| #[trigger]
            self.live(i) ==> self.arena(i).wf() && self.arena(i).capacity() == self.arena_size
        &&& forall|k: int|
            0 <= k < self.advice.len() ==> self.names_end(#[trigger] self.advice[k])
        &&& self.slab.len() <= usize::MAX
        &&& self.arena_size > 0
        &&& crate::config::is_power_of_two(self.page_size as int)
        &&& self.arena_size as int % self.page_size as int == 0
    }

    /// A manager that has just mapped `regions`: the first arena is written,
    /// the others are free.
    pub open spec fn initial(config: PoolConfig, regions: Seq<Region>) -> Self {
        ManagerView {
            slab: Seq::new(
                regions.len(),
                |i: int|
                    if i == 0 {
                        Some(ArenaView::unused(regions[i]).recycled(0))
                    } else {
                        Some(ArenaView::unused(regions[i]))
                    },
            ),
            write: 0,
            draining: Seq::empty(),
            free: Seq::new((regions.len() - 1) as nat, |k: int| k + 1),
            epoch: 0,
            arena_size: config.arena_size,
            page_size: config.page_size,
            max_free: config.max_free_arenas,
            max_arenas: config.max_total_arenas,
            advice: Seq::empty(),
            unmapped: Seq::empty(),
        }
    }

    /// All leases of the arena at `i` are back.
    pub open spec fn idle(self, i: int) -> bool {
        self.arena(i).outstanding() == 0
    }

    /// The arena at `i` keeps a sweep from going further: it is leased and
    /// retired only recently.
    pub open spec fn blocks(self, i: int) -> bool {
        !self.idle(i) && self.arena(i).epoch + COLLECT_YOUNG_EPOCHS >= self.epoch
    }

    /// The first position in the drain queue, from `k` on, that holds a
    /// blocking arena, or the queue's length.
    pub open spec fn stop_from(self, k: int) -> int
        decreases self.draining.len() - k,
    {
        if k >= self.draining.len() {
            self.draining.len() as int
        } else if self.blocks(self.draining[k]) {
            k
        } else {
            self.stop_from(k + 1)
        }
    }

    /// The arenas that a sweep looks at.
    pub open spec fn reached(self) -> Seq<int> {
        self.draining.take(self.stop_from(0))
    }

    pub open spec fn is_idle(self) -> spec_fn(int) -> bool {
        |i: int| self.idle(i)
    }

    pub open spec fn is_leased(self) -> spec_fn(int) -> bool {
        |i: int| !self.idle(i)
    }

    /// The arenas that a sweep frees: those it reaches with no lease out.
    pub open spec fn swept(self) -> Seq<int> {
        self.reached().filter(self.is_idle())
    }

    /// The arenas that a sweep leaves in the queue, in their old order.
    pub open spec fn kept(self) -> Seq<int> {
        self.reached().filter(self.is_leased()) + self.draining.skip(self.stop_from(0))
    }

    /// What the kernel may take back when the arena at `i` is freed.
    pub open spec fn advice_at(self, i: int) -> Option<(int, PageRange)> {
        match self.arena(i).idle_pages(self.page_size as int) {
            Some(pages) => Some((i, pages)),
            None => None,
        }
    }

    pub open spec fn advice_fn(self) -> spec_fn(int) -> Option<(int, PageRange)> {
        |i: int| self.advice_at(i)
    }

    /// The manager after a sweep of the drain queue.
    pub open spec fn collected(self) -> Self {
        ManagerView {
            slab: Seq::new(
                self.slab.len(),
                |i: int|
                    if self.swept().contains(i) {
                        Some(ArenaView { state: ArenaState::Collected, ..self.arena(i) })
                    } else {
                        self.slab[i]
                    },
            ),
            draining: self.kept(),
            free: self.free + self.swept(),
            advice: self.advice + self.swept().filter_map(self.advice_fn()),
            ..self
        }
    }

    /// The manager as a rotation finds it: the drain queue is swept first if
    /// the free pool is empty.
    pub open spec fn ready(self) -> Self {
        if self.free.len() > 0 {
            self
        } else {
            self.collected()
        }
    }

    /// No further arena may be mapped.
    pub open spec fn at_limit(self) -> bool {
        self.max_arenas > 0 && self.live_count() >= self.max_arenas
    }

    /// The first slab index from `k` on that holds no arena.
    pub open spec fn gap_from(self, k: int) -> int
        decreases self.slab.len() - k,
    {
        if k >= self.slab.len() {
            self.slab.len() as int
        } else if self.slab[k] is None {
            k
        } else {
            self.gap_from(k + 1)
        }
    }

    /// Where a new arena goes: the first gap of the slab, or its end.
    pub open spec fn gap(self) -> int {
        self.gap_from(0)
    }

    /// The manager with a new arena over `region` in the first gap. It belongs
    /// to none of the three places yet.
    pub open spec fn grown(self, region: Region) -> Self {
        ManagerView {
            slab: if self.gap() < self.slab.len() {
                self.slab.update(self.gap(), Some(ArenaView::unused(region)))
            } else {
                self.slab.push(Some(ArenaView::unused(region)))
            },
            ..self
        }
    }

    /// The manager without the last free arena in the free pool.
    pub open spec fn popped(self) -> Self {
        ManagerView { free: self.free.drop_last(), ..self }
    }

    /// Picks out the advice about other arenas than the one at `i`.
    pub open spec fn not_about(i: int) -> spec_fn((int, PageRange)) -> bool {
        |entry: (int, PageRange)| entry.0 != i
    }

    /// The written arena retired to the drain queue, and the arena at `next`
    /// recycled to serve the next epoch.
    pub open spec fn activated(self, next: int) -> Self {
        let epoch = (self.epoch + 1) as u64;
        ManagerView {
            slab: self.slab.update(
                self.write,
                Some(ArenaView { state: ArenaState::Retired, ..self.current() }),
            ).update(next, Some(self.arena(next).recycled(epoch))),
            draining: self.draining.push(self.write),
            write: next,
            epoch,
            ..self
        }
    }

    /// How many arenas are in the free pool beyond its limit.
    pub open spec fn excess(self) -> nat {
        if self.free.len() > self.max_free {
            (self.free.len() - self.max_free) as nat
        } else {
            0
        }
    }

    /// The arenas that go when the free pool is shrunk to its limit, in the
    /// order in which they go.
    pub open spec fn dropped(self) -> Seq<int> {
        Seq::new(self.excess(), |k: int| self.free[self.free.len() - 1 - k])
    }

    /// The manager without the last arena of the free pool. Its memory is to be
    /// unmapped as a whole.
    pub open spec fn cut(self) -> Self {
        ManagerView {
            slab: self.slab.update(self.free.last(), None),
            free: self.free.drop_last(),
            advice: self.advice.filter(Self::not_about(self.free.last())),
            unmapped: self.unmapped.push(self.arena(self.free.last()).bytes),
            ..self
        }
    }

    /// The manager after shrinking the free pool to its limit: the arenas at
    /// its end go, the last one first.
    pub open spec fn shrunk(self) -> Self
        decreases self.free.len(),
    {
        if self.free.len() <= self.max_free {
            self
        } else {
            self.cut().shrunk()
        }
    }

    /// How many mapped regions the manager answers for: those of live arenas and
    /// those that are to be unmapped.
    pub open spec fn regions(self) -> nat {
        self.live_count() + self.unmapped.len()
    }

    /// The manager with another arena at `i`.
    pub open spec fn with_arena(self, i: int, arena: ArenaView) -> Self {
        ManagerView { slab: self.slab.update(i, Some(arena)), ..self }
    }

    /// The first slab index from `k` on whose arena serves or last served
    /// `epoch`, or the length of the slab.
    pub open spec fn serving_from(self, k: int, epoch: u64) -> int
        decreases self.slab.len() - k,
    {
        if k >= self.slab.len() {
            self.slab.len() as int
        } else if self.slab[k] is Some && self.arena(k).epoch == epoch {
            k
        } else {
            self.serving_from(k + 1, epoch)
        }
    }

    /// The arena that a request to reclaim `epoch` is about.
    pub open spec fn serving(self, epoch: u64) -> int {
        self.serving_from(0, epoch)
    }

    /// The live slab indices from `k` on, ascending.
    pub open spec fn live_from(self, k: int) -> Seq<int>
        decreases self.slab.len() - k,
    {
        if k >= self.slab.len() {
            Seq::empty()
        } else if self.slab[k] is Some {
            seq![k] + self.live_from(k + 1)
        } else {
            self.live_from(k + 1)
        }
    }
}

/// Filtering keeps elements apart that were apart.
pub proof fn filter_keeps_distinct(s: Seq<int>, p: spec_fn(int) -> bool)
    requires
        s.no_duplicates(),
    ensures
        s.filter(p).no_duplicates(),
    decreases s.len(),
{
    reveal(Seq::filter);
    if s.len() > 0 {
        let rest = s.drop_last();
        filter_keeps_distinct(rest, p);
        assert forall|i: int| 0 <= i < rest.filter(p).len() implies rest.filter(p)[i]
            != s.last() by {
            rest.lemma_filter_contains_rev(p, rest.filter(p)[i]);
            assert(rest.filter(p).contains(rest.filter(p)[i]));
            filter_is_part(rest, p, rest.filter(p)[i]);
            let j = choose|j: int| 0 <= j < rest.len() && rest[j] == rest.filter(p)[i];
            assert(s[j] == rest[j]);
        }
    }
}

/// What a filtered sequence holds is what the sequence holds and the filter
/// lets through.
pub proof fn filter_is_part(s: Seq<int>, p: spec_fn(int) -> bool, x: int)
    ensures
        s.filter(p).contains(x) <==> s.contains(x) && p(x),
    decreases s.len(),
{
    reveal(Seq::filter);
    if s.len() > 0 {
        let rest = s.drop_last();
        filter_is_part(rest, p, x);
        if s.contains(x) {
            let j = choose|j: int| 0 <= j < s.len() && s[j] == x;
            if j < rest.len() {
                assert(rest[j] == x);
            }
        }
        if rest.contains(x) {
            let j = choose|j: int| 0 <= j < rest.len() && rest[j] == x;
            assert(s[j] == x);
        }
        if p(s.last()) {
            let f = rest.filter(p);
            assert(s.filter(p) == f.push(s.last()));
            if f.contains(x) {
                let j = choose|j: int| 0 <= j < f.len() && f[j] == x;
                assert(f.push(s.last())[j] == x);
            }
            assert(f.push(s.last())[f.len() as int] == s.last());
            assert(s[s.len() - 1] == s.last());
            if s.filter(p).contains(x) && !f.contains(x) {
                let j = choose|j: int| 0 <= j < s.filter(p).len() && s.filter(p)[j] == x;
                assert(j == f.len());
            }
        }
    }
}

/// A filter that lets everything through changes nothing.
pub proof fn filter_everything(s: Seq<int>, p: spec_fn(int) -> bool)
    requires
        forall|i: int| 0 <= i < s.len() ==> p(#[trigger] s[i]),
    ensures
        s.filter(p) == s,
    decreases s.len(),
{
    reveal(Seq::filter);
    if s.len() > 0 {
        let rest = s.drop_last();
        assert forall|i: int| 0 <= i < rest.len() implies p(#[trigger] rest[i]) by {
            assert(rest[i] == s[i]);
        }
        filter_everything(rest, p);
        assert(s[s.len() - 1] == s.last());
        assert(s.filter(p) =~= s);
    }
}

/// What a filtered sequence holds was in the sequence, and the filter lets it
/// through.
pub proof fn filtered_advice(
    s: Seq<(int, PageRange)>,
    p: spec_fn((int, PageRange)) -> bool,
    k: int,
)
    requires
        0 <= k < s.filter(p).len(),
    ensures
        p(s.filter(p)[k]),
        exists|j: int| 0 <= j < s.len() && #[trigger] s[j] == s.filter(p)[k],
    decreases s.len(),
{
    reveal(Seq::filter);
    let rest = s.drop_last();
    if k < rest.filter(p).len() {
        filtered_advice(rest, p, k);
        let j = choose|j: int| 0 <= j < rest.len() && #[trigger] rest[j] == rest.filter(p)[k];
        assert(s[j] == s.filter(p)[k]);
    } else {
        assert(s[s.len() - 1] == s.filter(p)[k]);
    }
}

/// What comes out of a sequence by a partial map is the image of something in
/// it.
pub proof fn mapped_advice(s: Seq<int>, f: spec_fn(int) -> Option<(int, PageRange)>, k: int)
    requires
        0 <= k < s.filter_map(f).len(),
    ensures
        exists|j: int| 0 <= j < s.len() && f(#[trigger] s[j]) == Some(s.filter_map(f)[k]),
    decreases s.len(),
{
    reveal(Seq::filter_map);
    let rest = s.drop_last();
    if k < rest.filter_map(f).len() {
        mapped_advice(rest, f, k);
        let j = choose|j: int|
            0 <= j < rest.len() && f(#[trigger] rest[j]) == Some(rest.filter_map(f)[k]);
        assert(f(s[j]) == Some(s.filter_map(f)[k]));
    } else {
        assert(f(s[s.len() - 1]) == Some(s.filter_map(f)[k]));
    }
}

/// What a partial map gives for something in a sequence comes out.
pub proof fn images_are_kept(s: Seq<int>, f: spec_fn(int) -> Option<(int, PageRange)>, k: int)
    requires
        0 <= k < s.len(),
        f(s[k]) is Some,
    ensures
        exists|j: int|
            0 <= j < s.filter_map(f).len() && #[trigger] s.filter_map(f)[j] == f(s[k])->0,
    decreases s.len(),
{
    reveal(Seq::filter_map);
    let rest = s.drop_last();
    let out = rest.filter_map(f);
    if k < rest.len() {
        images_are_kept(rest, f, k);
        let j = choose|j: int| 0 <= j < out.len() && #[trigger] out[j] == f(rest[k])->0;
        assert(s.filter_map(f)[j] == out[j]);
    } else {
        assert(s.last() == s[k]);
        assert(s.filter_map(f)[out.len() as int] == f(s[k])->0);
    }
}

/// Distinct numbers below `n` are at most `n` many.
pub proof fn distinct_below(s: Seq<int>, n: int)
    requires
        n >= 0,
        s.no_duplicates(),
        forall|i: int| 0 <= i < s.len() ==> 0 <= #[trigger] s[i] < n,
    ensures
        s.len() <= n,
{
    s.unique_seq_to_set();
    let range = vstd::set_lib::set_int_range(0, n);
    vstd::set_lib::lemma_int_range(0, n);
    assert(s.to_set().subset_of(range));
    vstd::set_lib::lemma_len_subset(s.to_set(), range);
}

impl ManagerView {
    /// The sweep stops inside the queue or at its end.
    pub proof fn stop_in_range(self, k: int)
        requires
            0 <= k <= self.draining.len(),
        ensures
            k <= self.stop_from(k) <= self.draining.len(),
            forall|j: int| k <= j < self.stop_from(k) ==> !self.blocks(#[trigger] self.draining[j]),
            self.stop_from(k) < self.draining.len() ==> self.blocks(
                self.draining[self.stop_from(k)],
            ),
        decreases self.draining.len() - k,
    {
        if k < self.draining.len() && !self.blocks(self.draining[k]) {
            self.stop_in_range(k + 1);
        }
    }

    /// What is freed was draining and idle, what is kept was draining, nothing
    /// gets lost or doubled.
    pub proof fn sweep_splits(self)
        requires
            self.draining.no_duplicates(),
        ensures
            self.swept().no_duplicates(),
            self.kept().no_duplicates(),
            forall|i: int| #[trigger] self.swept().contains(i) ==> self.draining.contains(i)
                && self.idle(i) && !self.kept().contains(i),
            forall|i: int| #[trigger] self.kept().contains(i) ==> self.draining.contains(i),
            forall|i: int| #[trigger] self.draining.contains(i) ==> self.swept().contains(i)
                || self.kept().contains(i),
            self.swept().len() + self.kept().len() == self.draining.len(),
    {
        self.stop_in_range(0);
        let stop = self.stop_from(0);
        let reached = self.reached();
        let tail = self.draining.skip(stop);
        let leased = reached.filter(self.is_leased());
        assert(reached.no_duplicates());
        filter_keeps_distinct(reached, self.is_idle());
        filter_keeps_distinct(reached, self.is_leased());
        assert(tail.no_duplicates());
        assert forall|i: int| #[trigger] reached.contains(i) implies self.draining.contains(i)
            && !tail.contains(i) by {
            let j = choose|j: int| 0 <= j < reached.len() && reached[j] == i;
            assert(self.draining[j] == i);
            if tail.contains(i) {
                let k = choose|k: int| 0 <= k < tail.len() && tail[k] == i;
                assert(self.draining[stop + k] == i);
            }
        }
        assert forall|i: int| #[trigger] tail.contains(i) implies self.draining.contains(i) by {
            let k = choose|k: int| 0 <= k < tail.len() && tail[k] == i;
            assert(self.draining[stop + k] == i);
        }
        assert forall|i: int| #[trigger] self.kept().contains(i) <==> leased.contains(i)
            || tail.contains(i) by {
            let kept = leased + tail;
            if kept.contains(i) {
                let k = choose|k: int| 0 <= k < kept.len() && kept[k] == i;
                if k < leased.len() {
                    assert(leased[k] == i);
                } else {
                    assert(tail[k - leased.len()] == i);
                }
            }
            if leased.contains(i) {
                let k = choose|k: int| 0 <= k < leased.len() && leased[k] == i;
                assert(kept[k] == i);
            }
            if tail.contains(i) {
                let k = choose|k: int| 0 <= k < tail.len() && tail[k] == i;
                assert(kept[leased.len() + k] == i);
            }
        }
        assert forall|i: int| #[trigger] self.swept().contains(i) implies self.draining.contains(i)
            && self.idle(i) && !self.kept().contains(i) by {
            filter_is_part(reached, self.is_idle(), i);
            filter_is_part(reached, self.is_leased(), i);
            assert(reached.contains(i));
        }
        assert forall|i: int| #[trigger] self.kept().contains(i) implies self.draining.contains(
            i,
        ) by {
            filter_is_part(reached, self.is_leased(), i);
            if leased.contains(i) {
                assert(reached.contains(i));
            }
        }
        assert forall|i: int| #[trigger] self.draining.contains(i) implies self.swept().contains(i)
            || self.kept().contains(i) by {
            let j = choose|j: int| 0 <= j < self.draining.len() && self.draining[j] == i;
            if j < stop {
                assert(reached[j] == i);
                filter_is_part(reached, self.is_idle(), i);
                filter_is_part(reached, self.is_leased(), i);
            } else {
                assert(tail[j - stop] == i);
            }
        }
        assert(self.kept().no_duplicates()) by {
            let kept = leased + tail;
            assert forall|a: int, b: int| 0 <= a < b < kept.len() implies kept[a] != kept[b] by {
                if a < leased.len() && b >= leased.len() {
                    assert(leased.contains(leased[a]));
                    filter_is_part(reached, self.is_leased(), leased[a]);
                    assert(tail.contains(tail[b - leased.len()]));
                }
            }
        }
        self.filter_lens(reached);
    }

    /// A sequence splits into its idle and its leased arenas.
    proof fn filter_lens(self, s: Seq<int>)
        ensures
            s.filter(self.is_idle()).len() + s.filter(self.is_leased()).len() == s.len(),
        decreases s.len(),
    {
        reveal(Seq::filter);
        if s.len() > 0 {
            self.filter_lens(s.drop_last());
        }
    }

    /// A sweep keeps the manager sound.
    pub proof fn collected_is_sound(self)
        requires
            self.wf(),
        ensures
            self.collected().wf(),
            self.collected().live_count() == self.live_count(),
            forall|i: int| self.collected().live(i) <==> #[trigger] self.live(i),
            self.collected().current() == self.current(),
    {
        self.sweep_splits();
        let next = self.collected();
        assert forall|i: int| next.live(i) <==> #[trigger] self.live(i) by {
            if self.swept().contains(i) {
                assert(self.draining.contains(i));
                let k = choose|k: int| 0 <= k < self.draining.len() && self.draining[k] == i;
                assert(self.live(self.draining[k]));
            }
        }
        assert(!self.swept().contains(self.write)) by {
            if self.swept().contains(self.write) {
                assert(self.draining.contains(self.write));
            }
        }
        assert forall|k: int| 0 <= k < next.draining.len() implies next.live(
            #[trigger] next.draining[k],
        ) && next.draining[k] != next.write by {
            assert(self.kept().contains(next.draining[k]));
            assert(self.draining.contains(next.draining[k]));
            assert(self.live(next.draining[k]));
        }
        assert forall|k: int| 0 <= k < next.free.len() implies next.live(#[trigger] next.free[k])
            && next.free[k] != next.write by {
            if k < self.free.len() {
                assert(next.free[k] == self.free[k]);
                assert(self.live(self.free[k]));
            } else {
                assert(next.free[k] == self.swept()[k - self.free.len()]);
                assert(self.swept().contains(next.free[k]));
                assert(self.draining.contains(next.free[k]));
                assert(self.live(next.free[k]));
            }
        }
        assert(next.free.no_duplicates()) by {
            assert forall|a: int, b: int| 0 <= a < b < next.free.len() implies next.free[a]
                != next.free[b] by {
                if b >= self.free.len() && a < self.free.len() {
                    assert(self.swept().contains(next.free[b]));
                    assert(self.draining.contains(next.free[b]));
                    assert(next.free[a] == self.free[a]);
                }
            }
        }
        assert forall|j: int, k: int|
            0 <= j < next.draining.len() && 0 <= k < next.free.len() implies
            #[trigger] next.draining[j] != #[trigger] next.free[k] by {
            assert(self.kept().contains(next.draining[j]));
            assert(self.draining.contains(next.draining[j]));
            if k < self.free.len() {
                assert(next.free[k] == self.free[k]);
            } else {
                assert(self.swept().contains(next.free[k]));
            }
        }
        assert forall|i: int| #[trigger] next.live(i) implies i == next.write
            || next.draining.contains(i) || next.free.contains(i) by {
            assert(self.live(i));
            if self.free.contains(i) {
                let k = choose|k: int| 0 <= k < self.free.len() && self.free[k] == i;
                assert(next.free[k] == i);
            }
            if self.swept().contains(i) {
                let k = choose|k: int| 0 <= k < self.swept().len() && self.swept()[k] == i;
                assert(next.free[self.free.len() + k] == i);
            }
        }
        assert forall|i: int| #[trigger] next.live(i) implies next.arena(i).wf() && next.arena(
            i,
        ).capacity() == next.arena_size by {
            assert(self.live(i));
        }
        assert forall|k: int| 0 <= k < next.advice.len() implies next.names_end(
            #[trigger] next.advice[k],
        ) by {
            let (i, pages) = next.advice[k];
            if k < self.advice.len() {
                assert(self.names_end(self.advice[k]));
                assert(self.live(i));
            } else {
                let n = k - self.advice.len();
                mapped_advice(self.swept(), self.advice_fn(), n);
                let j = choose|j: int|
                    0 <= j < self.swept().len() && (self.advice_fn())(#[trigger] self.swept()[j])
                        == Some(next.advice[k]);
                assert(self.swept()[j] == i);
                assert(self.swept().contains(i));
                assert(self.draining.contains(i));
                assert(self.live(i));
                self.arena(i).idle_pages_are_unused(self.page_size as int);
            }
        }
    }

    /// A sweep that frees nothing changes nothing.
    pub proof fn empty_sweep_is_identity(self)
        requires
            self.swept().len() == 0,
        ensures
            self.collected() == self,
    {
        self.stop_in_range(0);
        let reached = self.reached();
        assert forall|i: int| 0 <= i < reached.len() implies (self.is_leased())(
            #[trigger] reached[i],
        ) by {
            filter_is_part(reached, self.is_idle(), reached[i]);
            assert(reached.contains(reached[i]));
            if self.idle(reached[i]) {
                assert(self.swept().contains(reached[i]));
            }
        }
        filter_everything(reached, self.is_leased());
        assert(self.kept() =~= self.draining);
        assert(self.collected().slab =~= self.slab);
        reveal(Seq::filter_map);
        assert(self.swept() =~= Seq::<int>::empty());
        assert(self.collected() =~= self);
    }

    /// A fresh manager is sound.
    pub proof fn initial_is_sound(config: PoolConfig, regions: Seq<Region>)
        requires
            config.valid(),
            regions.len() == config.initial_arenas,
            forall|i: int|
                0 <= i < regions.len() ==> (#[trigger] regions[i]).bytes.len()
                    == config.arena_size,
        ensures
            ManagerView::initial(config, regions).wf(),
            ManagerView::initial(config, regions).live_count() == config.initial_arenas,
    {
        let fresh = ManagerView::initial(config, regions);
        assert forall|i: int| #[trigger] fresh.live(i) implies i == fresh.write
            || fresh.draining.contains(i) || fresh.free.contains(i) by {
            if i > 0 {
                assert(fresh.free[i - 1] == i);
            }
        }
    }

    /// A new arena goes where no live arena is.
    pub proof fn gap_is_free(self, k: int)
        requires
            0 <= k <= self.slab.len(),
        ensures
            k <= self.gap_from(k) <= self.slab.len(),
            !self.live(self.gap_from(k)),
            forall|i: int| k <= i < self.gap_from(k) ==> self.live(i),
        decreases self.slab.len() - k,
    {
        if k < self.slab.len() && self.slab[k] is Some {
            self.gap_is_free(k + 1);
        }
    }

    /// The arena found for an epoch is live, serves it, and none before it does.
    pub proof fn serving_is_first(self, k: int, epoch: u64)
        requires
            0 <= k <= self.slab.len(),
        ensures
            k <= self.serving_from(k, epoch) <= self.slab.len(),
            self.serving_from(k, epoch) < self.slab.len() ==> self.live(
                self.serving_from(k, epoch),
            ) && self.arena(self.serving_from(k, epoch)).epoch == epoch,
            forall|i: int|
                k <= i < self.serving_from(k, epoch) && #[trigger] self.live(i) ==> self.arena(
                    i,
                ).epoch != epoch,
        decreases self.slab.len() - k,
    {
        if k < self.slab.len() && !(self.slab[k] is Some && self.arena(k).epoch == epoch) {
            self.serving_is_first(k + 1, epoch);
        }
    }

    /// The list of live indices holds exactly the live indices, each once, in
    /// ascending order.
    pub proof fn live_list_is_exact(self, k: int)
        requires
            0 <= k <= self.slab.len(),
        ensures
            forall|i: int| #[trigger] self.live_from(k).contains(i) <==> k <= i && self.live(i),
            forall|a: int, b: int|
                0 <= a < b < self.live_from(k).len() ==> #[trigger] self.live_from(k)[a]
                    < #[trigger] self.live_from(k)[b],
            self.live_from(k).no_duplicates(),
        decreases self.slab.len() - k,
    {
        if k < self.slab.len() {
            self.live_list_is_exact(k + 1);
            let rest = self.live_from(k + 1);
            let all = self.live_from(k);
            if self.slab[k] is Some {
                assert(all[0] == k);
                assert forall|i: int| #[trigger] all.contains(i) <==> k <= i && self.live(i) by {
                    if all.contains(i) && i != k {
                        let a = choose|a: int| 0 <= a < all.len() && all[a] == i;
                        assert(rest[a - 1] == i);
                        assert(rest.contains(i));
                    }
                    if k < i && self.live(i) {
                        assert(rest.contains(i));
                        let a = choose|a: int| 0 <= a < rest.len() && rest[a] == i;
                        assert(all[a + 1] == i);
                    }
                }
                assert forall|a: int, b: int| 0 <= a < b < all.len() implies #[trigger] all[a]
                    < #[trigger] all[b] by {
                    assert(all[b] == rest[b - 1]);
                    assert(rest.contains(rest[b - 1]));
                    if a > 0 {
                        assert(all[a] == rest[a - 1]);
                    }
                }
            } else {
                assert forall|i: int| #[trigger] all.contains(i) <==> k <= i && self.live(i) by {
                    assert(rest.contains(i) <==> k + 1 <= i && self.live(i));
                }
            }
        }
    }

    /// The arenas in all three places.
    spec fn members(self) -> Seq<int> {
        (self.draining + self.free).push(self.write)
    }

    /// The arenas in the three places are live and distinct.
    proof fn members_are_distinct(self)
        requires
            self.wf(),
        ensures
            self.members().len() == self.live_count(),
            self.members().no_duplicates(),
            forall|i: int|
                0 <= i < self.members().len() ==> self.live(#[trigger] self.members()[i]),
    {
        let all = self.members();
        assert forall|i: int| 0 <= i < all.len() implies self.live(#[trigger] all[i]) by {
            if i < self.draining.len() {
                assert(all[i] == self.draining[i]);
            } else if i < self.draining.len() + self.free.len() {
                assert(all[i] == self.free[i - self.draining.len()]);
            }
        }
        assert(all.no_duplicates()) by {
            assert forall|a: int, b: int| 0 <= a < b < all.len() implies all[a] != all[b] by {
                let d = self.draining.len();
                let f = self.free.len();
                if b < d {
                    assert(all[a] == self.draining[a] && all[b] == self.draining[b]);
                } else if b < d + f {
                    assert(all[b] == self.free[b - d]);
                    if a < d {
                        assert(all[a] == self.draining[a]);
                    } else {
                        assert(all[a] == self.free[a - d]);
                    }
                } else {
                    if a < d {
                        assert(all[a] == self.draining[a]);
                    } else {
                        assert(all[a] == self.free[a - d]);
                    }
                }
            }
        }
    }

    /// Every live arena sits in a slab entry of its own, so there are no more of
    /// them than entries, and fewer while the slab has a gap.
    pub proof fn live_arenas_fit(self)
        requires
            self.wf(),
        ensures
            self.live_count() <= self.slab.len(),
            self.gap() < self.slab.len() ==> self.live_count() < self.slab.len(),
    {
        self.gap_is_free(0);
        self.members_are_distinct();
        let all = self.members();
        distinct_below(all, self.slab.len() as int);
        if self.gap() < self.slab.len() {
            let more = all.push(self.gap());
            assert forall|i: int| 0 <= i < more.len() implies 0 <= #[trigger] more[i]
                < self.slab.len() by {
                if i < all.len() {
                    assert(more[i] == all[i]);
                    assert(self.live(all[i]));
                }
            }
            assert(more.no_duplicates()) by {
                assert forall|a: int, b: int| 0 <= a < b < more.len() implies more[a]
                    != more[b] by {
                    assert(self.live(all[a]));
                }
            }
            distinct_below(more, self.slab.len() as int);
        }
    }

    /// The list of live indices is as long as there are live arenas.
    pub proof fn live_list_counts(self)
        requires
            self.wf(),
        ensures
            self.live_from(0).len() == self.live_count(),
    {
        let list = self.live_from(0);
        self.live_list_is_exact(0);
        self.members_are_distinct();
        let all = self.members();
        assert forall|i: int| #[trigger] all.contains(i) <==> list.contains(i) by {
            if all.contains(i) {
                let k = choose|k: int| 0 <= k < all.len() && all[k] == i;
                assert(self.live(all[k]));
            }
            if list.contains(i) {
                assert(self.live(i));
                if i == self.write {
                    assert(all[all.len() - 1] == i);
                } else if self.draining.contains(i) {
                    let k = choose|k: int| 0 <= k < self.draining.len() && self.draining[k] == i;
                    assert(all[k] == i);
                } else {
                    let k = choose|k: int| 0 <= k < self.free.len() && self.free[k] == i;
                    assert(all[self.draining.len() + k] == i);
                }
            }
        }
        all.unique_seq_to_set();
        list.unique_seq_to_set();
        assert(all.to_set() =~= list.to_set());
    }

    /// Activating a live arena that is in none of the three places keeps the
    /// manager sound.
    pub proof fn activated_is_sound(self, next: int)
        requires
            self.live(self.write),
            self.live(next),
            next != self.write,
            !self.draining.contains(next),
            !self.free.contains(next),
            self.draining.no_duplicates(),
            self.free.no_duplicates(),
            forall|k: int|
                0 <= k < self.draining.len() ==> self.live(#[trigger] self.draining[k])
                    && self.draining[k] != self.write,
            forall|k: int|
                0 <= k < self.free.len() ==> self.live(#[trigger] self.free[k]) && self.free[k]
                    != self.write,
            forall|j: int, k: int|
                0 <= j < self.draining.len() && 0 <= k < self.free.len()
                    ==> #[trigger] self.draining[j] != #[trigger] self.free[k],
            forall|i: int| #[trigger]
                self.live(i) ==> i == self.write || i == next || self.draining.contains(i)
                    || self.free.contains(i),
            forall|i: int| #[trigger]
                self.live(i) ==> self.arena(i).wf() && self.arena(i).capacity()
                    == self.arena_size,
            forall|k: int|
                0 <= k < self.advice.len() ==> self.names_end(#[trigger] self.advice[k]),
            self.slab.len() <= usize::MAX,
            self.arena_size > 0,
            crate::config::is_power_of_two(self.page_size as int),
            self.arena_size as int % self.page_size as int == 0,
            self.epoch < u64::MAX,
        ensures
            self.activated(next).wf(),
            self.activated(next).live_count() == self.live_count() + 1,
    {
        let after = self.activated(next);
        assert forall|i: int| #[trigger] after.live(i) <==> self.live(i) by {}
        assert forall|k: int| 0 <= k < after.draining.len() implies after.live(
            #[trigger] after.draining[k],
        ) && after.draining[k] != after.write by {
            if k < self.draining.len() {
                assert(after.draining[k] == self.draining[k]);
                assert(self.live(self.draining[k]));
                assert(self.draining.contains(self.draining[k]));
            }
        }
        assert forall|k: int| 0 <= k < after.free.len() implies after.live(#[trigger] after.free[k])
            && after.free[k] != after.write by {
            assert(self.live(self.free[k]));
            assert(self.free.contains(self.free[k]));
        }
        assert(after.draining.no_duplicates());
        assert forall|j: int, k: int|
            0 <= j < after.draining.len() && 0 <= k < after.free.len() implies
            #[trigger] after.draining[j] != #[trigger] after.free[k] by {
            if j < self.draining.len() {
                assert(after.draining[j] == self.draining[j]);
                assert(after.free[k] == self.free[k]);
            }
        }
        assert forall|i: int| #[trigger] after.live(i) implies i == after.write
            || after.draining.contains(i) || after.free.contains(i) by {
            assert(self.live(i));
            if i == self.write {
                assert(after.draining[self.draining.len() as int] == i);
            } else if self.draining.contains(i) {
                let k = choose|k: int| 0 <= k < self.draining.len() && self.draining[k] == i;
                assert(after.draining[k] == i);
            }
        }
        assert forall|i: int| #[trigger] after.live(i) implies after.arena(i).wf() && after.arena(
            i,
        ).capacity() == after.arena_size by {
            assert(self.live(i));
        }
        assert forall|k: int| 0 <= k < after.advice.len() implies after.names_end(
            #[trigger] after.advice[k],
        ) by {
            assert(self.names_end(self.advice[k]));
        }
    }

    /// Rotating onto the last free arena keeps the manager sound.
    pub proof fn reuse_is_sound(self)
        requires
            self.wf(),
            self.free.len() > 0,
            self.epoch < u64::MAX,
        ensures
            self.popped().activated(self.free.last()).wf(),
            self.popped().activated(self.free.last()).live_count() == self.live_count(),
    {
        let mid = self.popped();
        let next = self.free.last();
        assert(self.live(self.free[self.free.len() - 1]));
        assert forall|i: int| #[trigger] mid.live(i) <==> self.live(i) by {}
        assert(!mid.free.contains(next)) by {
            if mid.free.contains(next) {
                let k = choose|k: int| 0 <= k < mid.free.len() && mid.free[k] == next;
                assert(self.free[k] == self.free[self.free.len() - 1]);
            }
        }
        assert(!mid.draining.contains(next)) by {
            if mid.draining.contains(next) {
                let k = choose|k: int| 0 <= k < mid.draining.len() && mid.draining[k] == next;
                assert(self.draining[k] == self.free[self.free.len() - 1]);
            }
        }
        assert forall|k: int| 0 <= k < mid.free.len() implies mid.live(#[trigger] mid.free[k])
            && mid.free[k] != mid.write by {
            assert(self.live(self.free[k]));
        }
        assert forall|j: int, k: int|
            0 <= j < mid.draining.len() && 0 <= k < mid.free.len() implies
            #[trigger] mid.draining[j] != #[trigger] mid.free[k] by {
            assert(self.draining[j] != self.free[k]);
        }
        assert forall|i: int| #[trigger] mid.live(i) implies i == mid.write || i == next
            || mid.draining.contains(i) || mid.free.contains(i) by {
            assert(self.live(i));
            if self.free.contains(i) {
                let k = choose|k: int| 0 <= k < self.free.len() && self.free[k] == i;
                if k < mid.free.len() {
                    assert(mid.free[k] == i);
                }
            }
        }
        assert forall|i: int| #[trigger] mid.live(i) implies mid.arena(i).wf() && mid.arena(
            i,
        ).capacity() == mid.arena_size by {
            assert(self.live(i));
        }
        assert forall|k: int| 0 <= k < mid.advice.len() implies mid.names_end(
            #[trigger] mid.advice[k],
        ) by {
            assert(self.names_end(self.advice[k]));
        }
        mid.activated_is_sound(next);
    }

    /// Rotating onto a newly mapped arena keeps the manager sound.
    pub proof fn growth_is_sound(self, region: Region)
        requires
            self.wf(),
            region.bytes.len() == self.arena_size,
            self.gap() < usize::MAX,
            self.epoch < u64::MAX,
        ensures
            self.grown(region).activated(self.gap()).wf(),
            self.grown(region).activated(self.gap()).live_count() == self.live_count() + 1,
    {
        self.gap_is_free(0);
        let gap = self.gap();
        let mid = self.grown(region);
        assert forall|i: int| #[trigger] mid.live(i) <==> self.live(i) || i == gap by {}
        assert(mid.arena(gap) == ArenaView::unused(region));
        assert forall|i: int| #[trigger] self.live(i) implies mid.arena(i) == self.arena(i) by {}
        assert(!mid.draining.contains(gap)) by {
            if mid.draining.contains(gap) {
                let k = choose|k: int| 0 <= k < mid.draining.len() && mid.draining[k] == gap;
                assert(self.live(self.draining[k]));
            }
        }
        assert(!mid.free.contains(gap)) by {
            if mid.free.contains(gap) {
                let k = choose|k: int| 0 <= k < mid.free.len() && mid.free[k] == gap;
                assert(self.live(self.free[k]));
            }
        }
        assert forall|k: int| 0 <= k < mid.free.len() implies mid.live(#[trigger] mid.free[k])
            && mid.free[k] != mid.write by {
            assert(self.live(self.free[k]));
        }
        assert forall|k: int| 0 <= k < mid.draining.len() implies mid.live(
            #[trigger] mid.draining[k],
        ) && mid.draining[k] != mid.write by {
            assert(self.live(self.draining[k]));
        }
        assert forall|i: int| #[trigger] mid.live(i) implies i == mid.write || i == gap
            || mid.draining.contains(i) || mid.free.contains(i) by {
            if i != gap {
                assert(self.live(i));
            }
        }
        assert forall|i: int| #[trigger] mid.live(i) implies mid.arena(i).wf() && mid.arena(
            i,
        ).capacity() == mid.arena_size by {
            if i != gap {
                assert(self.live(i));
            }
        }
        assert forall|k: int| 0 <= k < mid.advice.len() implies mid.names_end(
            #[trigger] mid.advice[k],
        ) by {
            assert(self.names_end(self.advice[k]));
        }
        mid.activated_is_sound(gap);
    }

    /// Changing one live arena for a sound one of the same size keeps the
    /// manager sound.
    pub proof fn with_arena_is_sound(self, i: int, arena: ArenaView)
        requires
            self.wf(),
            self.live(i),
            arena.wf(),
            arena.capacity() == self.arena_size,
        ensures
            self.with_arena(i, arena).wf(),
            self.with_arena(i, arena).live_count() == self.live_count(),
    {
        let after = self.with_arena(i, arena);
        assert forall|j: int| #[trigger] after.live(j) <==> self.live(j) by {}
        assert forall|j: int| #[trigger] after.live(j) implies after.arena(j).wf() && after.arena(
            j,
        ).capacity() == after.arena_size by {
            assert(self.live(j));
        }
        assert forall|k: int| 0 <= k < after.free.len() implies after.live(#[trigger] after.free[k])
            && after.free[k] != after.write by {
            assert(self.live(self.free[k]));
        }
        assert forall|k: int| 0 <= k < after.draining.len() implies after.live(
            #[trigger] after.draining[k],
        ) && after.draining[k] != after.write by {
            assert(self.live(self.draining[k]));
        }
        assert forall|j: int| #[trigger] after.live(j) implies j == after.write
            || after.draining.contains(j) || after.free.contains(j) by {
            assert(self.live(j));
        }
        assert forall|k: int| 0 <= k < after.advice.len() implies after.names_end(
            #[trigger] after.advice[k],
        ) by {
            assert(self.names_end(self.advice[k]));
        }
    }

    /// Dropping the last free arena keeps the manager sound.
    pub proof fn drop_last_free_is_sound(self)
        requires
            self.wf(),
            self.free.len() > 0,
        ensures
            self.cut().wf(),
            self.cut().live_count() + 1 == self.live_count(),
    {
        let last = self.free.last();
        let after = self.cut();
        assert(self.live(self.free[self.free.len() - 1]));
        assert forall|i: int| #[trigger] after.live(i) <==> self.live(i) && i != last by {}
        assert forall|k: int| 0 <= k < after.free.len() implies after.live(#[trigger] after.free[k])
            && after.free[k] != after.write by {
            assert(self.live(self.free[k]));
            assert(self.free[k] != self.free[self.free.len() - 1]);
        }
        assert forall|k: int| 0 <= k < after.draining.len() implies after.live(
            #[trigger] after.draining[k],
        ) && after.draining[k] != after.write by {
            assert(self.live(self.draining[k]));
            assert(self.draining[k] != self.free[self.free.len() - 1]);
        }
        assert forall|j: int, k: int|
            0 <= j < after.draining.len() && 0 <= k < after.free.len() implies
            #[trigger] after.draining[j] != #[trigger] after.free[k] by {
            assert(self.draining[j] != self.free[k]);
        }
        assert forall|i: int| #[trigger] after.live(i) implies i == after.write
            || after.draining.contains(i) || after.free.contains(i) by {
            assert(self.live(i));
            if self.free.contains(i) {
                let k = choose|k: int| 0 <= k < self.free.len() && self.free[k] == i;
                assert(after.free[k] == i);
            }
        }
        assert forall|i: int| #[trigger] after.live(i) implies after.arena(i).wf() && after.arena(
            i,
        ).capacity() == after.arena_size by {
            assert(self.live(i));
        }
        assert forall|k: int| 0 <= k < after.advice.len() implies after.names_end(
            #[trigger] after.advice[k],
        ) by {
            filtered_advice(self.advice, Self::not_about(last), k);
            let j = choose|j: int|
                0 <= j < self.advice.len() && #[trigger] self.advice[j] == after.advice[k];
            assert(self.names_end(self.advice[j]));
        }
    }

    /// Shrinking keeps the manager sound and removes exactly the excess.
    pub proof fn shrunk_is_sound(self)
        requires
            self.wf(),
        ensures
            self.shrunk().wf(),
            self.shrunk().free == self.free.take(self.free.len() - self.excess()),
            self.shrunk().draining == self.draining,
            self.shrunk().write == self.write,
            self.shrunk().epoch == self.epoch,
            self.shrunk().current() == self.current(),
            self.shrunk().slab.len() == self.slab.len(),
            self.shrunk().live_count() + self.excess() == self.live_count(),
            forall|i: int|
                0 <= i < self.slab.len() ==> #[trigger] self.shrunk().slab[i]
                    == if self.free.skip(self.free.len() - self.excess()).contains(i) {
                    None
                } else {
                    self.slab[i]
                },
        decreases self.free.len(),
    {
        if self.free.len() > self.max_free {
            let last = self.free.last();
            let after = self.cut();
            assert(self.live(self.free[self.free.len() - 1]));
            self.drop_last_free_is_sound();
            after.shrunk_is_sound();
            let keep = self.free.len() - self.excess();
            assert(after.free.len() - after.excess() == keep);
            assert(after.free.take(keep) =~= self.free.take(keep));
            assert forall|i: int| 0 <= i < self.slab.len() implies #[trigger] self.shrunk().slab[i]
                == if self.free.skip(keep).contains(i) {
                None
            } else {
                self.slab[i]
            } by {
                let mine = self.free.skip(keep);
                let rest = after.free.skip(keep);
                assert(after.shrunk().slab[i] == if rest.contains(i) {
                    None
                } else {
                    after.slab[i]
                });
                if mine.contains(i) {
                    let k = choose|k: int| 0 <= k < mine.len() && mine[k] == i;
                    if k < rest.len() {
                        assert(rest[k] == i);
                    }
                }
                if rest.contains(i) {
                    let k = choose|k: int| 0 <= k < rest.len() && rest[k] == i;
                    assert(mine[k] == i);
                }
                assert(mine[mine.len() - 1] == last);
            }
        } else {
            assert(self.free.take(self.free.len() as int) =~= self.free);
            assert(self.free.skip(self.free.len() as int) =~= Seq::<int>::empty());
        }
    }

    /// Taking what is queued for the kernel keeps the manager sound.
    pub proof fn mailboxes_do_not_matter(self, other: ManagerView)
        requires
            self.wf(),
            other == (ManagerView { advice: other.advice, unmapped: other.unmapped, ..self }),
            other.advice == self.advice || other.advice.len() == 0,
        ensures
            other.wf(),
            other.live_count() == self.live_count(),
    {
        assert forall|i: int| #[trigger] other.live(i) <==> self.live(i) by {}
        assert forall|i: int| #[trigger] other.live(i) implies other.arena(i) == self.arena(i)
            && self.live(i) by {}
        assert forall|k: int| 0 <= k < other.draining.len() implies other.live(
            #[trigger] other.draining[k],
        ) && other.draining[k] != other.write by {
            assert(self.live(self.draining[k]));
        }
        assert forall|k: int| 0 <= k < other.free.len() implies other.live(#[trigger] other.free[k])
            && other.free[k] != other.write by {
            assert(self.live(self.free[k]));
        }
        assert forall|k: int| 0 <= k < other.advice.len() implies other.names_end(
            #[trigger] other.advice[k],
        ) by {
            assert(self.names_end(self.advice[k]));
        }
    }
}

} // verus!
