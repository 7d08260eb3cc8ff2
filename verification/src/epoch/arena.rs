//! A bump allocator over one mapped region, with split lease counting.
use vstd::prelude::*;

use crate::error::{OsError, TurbineError};

verus! {

/// State of an arena in the epoch lifecycle.
#[derive(Debug, Clone, Copy, PartialEq, Eq, Structural)]
pub enum ArenaState {
    /// Currently accepting allocations.
    Writable,
    /// Epoch has rotated; in-flight I/O may still reference this arena.
    Retired,
    /// All leases returned; arena memory can be recycled.
    Collected,
}

/// A range of whole pages at the end of an arena that hold nothing, which the
/// kernel may take back.
#[derive(Debug, Clone, Copy, PartialEq, Eq, Structural)]
pub struct PageRange {
    pub start: usize,
    pub len: usize,
}

/// The smallest multiple of `page` that is not below `n`.
pub open spec fn round_up(n: int, page: int) -> int {
    ((n + page - 1) / page) * page
}

/// A region that an arena was made over.
///
/// The identity tells arenas apart that agree in everything else. No function
/// says which number an arena gets, so nothing can be shown to belong to two
/// arenas that were made apart.
#[verifier::ext_equal]
pub struct Region {
    pub id: int,
    pub bytes: Seq<u8>,
}

/// What an arena is: its identity, the bytes it manages, how many of them are
/// handed out, the id of the next buffer, its two lease counters, its state and
/// epoch.
#[verifier::ext_equal]
pub struct ArenaView {
    /// Which arena this is, however often it is recycled.
    pub id: int,
    /// The managed memory.
    pub bytes: Seq<u8>,
    /// How many bytes from the start are handed out.
    pub used: nat,
    /// The id that the next buffer gets.
    pub next_buf_id: u32,
    /// Leases taken and not given back on the owning thread.
    pub acquired: nat,
    /// Of those, the ones that another thread has given back.
    pub returned: nat,
    pub state: ArenaState,
    pub epoch: u64,
}

impl ArenaView {
    /// Nothing is handed out beyond the end, and no lease is returned that was
    /// not taken.
    pub open spec fn wf(self) -> bool {
        &&& self.used <= self.bytes.len() <= usize::MAX
        &&& self.returned <= self.acquired <= usize::MAX
    }

    /// An arena over `region` that was never activated.
    pub open spec fn unused(region: Region) -> Self {
        ArenaView {
            id: region.id,
            bytes: region.bytes,
            used: 0,
            next_buf_id: 0,
            acquired: 0,
            returned: 0,
            state: ArenaState::Collected,
            epoch: 0,
        }
    }

    /// The number of bytes managed.
    pub open spec fn capacity(self) -> nat {
        self.bytes.len()
    }

    /// The number of bytes that can still be handed out.
    pub open spec fn available(self) -> int {
        self.bytes.len() - self.used
    }

    /// Leases that nobody has given back yet.
    pub open spec fn outstanding(self) -> int {
        self.acquired - self.returned
    }

    /// The arena with `len` more bytes handed out under one more lease.
    pub open spec fn leased(self, len: nat) -> Self {
        ArenaView {
            used: self.used + len,
            next_buf_id: self.next_buf_id.wrapping_add(1),
            acquired: self.acquired + 1,
            ..self
        }
    }

    /// The arena with everything given back, ready to serve a new epoch. The
    /// memory is not cleared.
    pub open spec fn recycled(self, epoch: u64) -> Self {
        ArenaView {
            used: 0,
            next_buf_id: 0,
            acquired: 0,
            returned: 0,
            state: ArenaState::Writable,
            epoch,
            ..self
        }
    }

    /// The whole pages behind the used part, if there are any.
    pub open spec fn idle_pages(self, page: int) -> Option<PageRange> {
        let start = round_up(self.used as int, page);
        if start < self.bytes.len() {
            Some(PageRange { start: start as usize, len: (self.bytes.len() - start) as usize })
        } else {
            None
        }
    }

    /// The memory with `data` written at `start`.
    pub open spec fn with_bytes(self, start: int, data: Seq<u8>) -> Self {
        ArenaView {
            bytes: self.bytes.subrange(0, start) + data + self.bytes.subrange(
                start + data.len(),
                self.bytes.len() as int,
            ),
            ..self
        }
    }
}

/// A bump allocator for a single epoch's buffers over one mapped region.
///
/// Allocations are append-only. Leases are counted twice: what the owning
/// thread takes and gives back, and what other threads give back. The
/// difference is what is outstanding.
pub struct Arena {
    id: Ghost<int>,
    region: &'static mut [u8],
    offset: usize,
    lease_count: usize,
    next_buf_id: u32,
    state: ArenaState,
    epoch: u64,
    remote_returns: usize,
}

impl View for Arena {
    type V = ArenaView;

    closed spec fn view(&self) -> ArenaView {
        ArenaView {
            id: self.id@,
            bytes: self.region@,
            used: self.offset as nat,
            next_buf_id: self.next_buf_id,
            acquired: self.lease_count as nat,
            returned: self.remote_returns as nat,
            state: self.state,
            epoch: self.epoch,
        }
    }
}

impl Arena {
    /// An arena over a freshly mapped region, or the error of the mapping.
    pub fn new(mapped: Result<&'static mut [u8], OsError>) -> (r: Result<Self, TurbineError>)
        ensures
            match mapped {
                Ok(region) => r matches Ok(arena) && arena@ == ArenaView::unused(
                    (Region { id: arena@.id, bytes: region@ }),
                ) && arena@.wf(),
                Err(e) => r == Err::<Self, TurbineError>(TurbineError::Mmap(e)),
            },
    {
        match mapped {
            Ok(region) => Ok(Self::over(region)),
            Err(e) => Err(TurbineError::Mmap(e)),
        }
    }

    /// An arena over a region.
    pub(crate) fn over(region: &'static mut [u8]) -> (r: Self)
        ensures
            r@ == ArenaView::unused((Region { id: r@.id, bytes: old(region)@ })),
            r@.wf(),
    {
        let size: usize = region.len();
        assert(size == region@.len());
        Arena {
            id: Ghost(arbitrary()),
            region,
            offset: 0,
            lease_count: 0,
            next_buf_id: 0,
            state: ArenaState::Collected,
            epoch: 0,
            remote_returns: 0,
        }
    }

    /// Takes `len` bytes from the bump allocator.
    ///
    /// Returns where they start and the id of the buffer, or `None` if fewer
    /// than `len` bytes are left.
    pub fn allocate(&mut self, len: usize) -> (r: Option<(usize, u32)>)
        requires
            old(self)@.wf(),
        ensures
            final(self)@.wf(),
            if len <= old(self)@.available() {
                &&& r == Some((old(self)@.used as usize, old(self)@.next_buf_id))
                &&& final(self)@ == (ArenaView {
                    used: old(self)@.used + len as nat,
                    next_buf_id: old(self)@.next_buf_id.wrapping_add(1),
                    ..old(self)@
                })
            } else {
                &&& r is None
                &&& final(self)@ == old(self)@
            },
    {
        let start: usize = self.offset;
        if len > self.region.len() - start {
            return None;
        }
        self.offset = start + len;
        let buf_id: u32 = self.next_buf_id;
        self.next_buf_id = buf_id.wrapping_add(1);
        Some((start, buf_id))
    }

    /// Increments the lease count.
    pub fn acquire_lease(&mut self)
        requires
            old(self)@.wf(),
            old(self)@.acquired < usize::MAX,
        ensures
            final(self)@.wf(),
            final(self)@ == (ArenaView { acquired: old(self)@.acquired + 1, ..old(self)@ }),
    {
        self.lease_count = self.lease_count + 1;
    }

    /// Decrements the lease count.
    pub fn release_lease(&mut self)
        requires
            old(self)@.wf(),
            old(self)@.outstanding() > 0,
        ensures
            final(self)@.wf(),
            final(self)@ == (ArenaView {
                acquired: (old(self)@.acquired - 1) as nat,
                ..old(self)@
            }),
    {
        self.lease_count = self.lease_count - 1;
    }

    /// Records a lease given back by another thread.
    pub fn remote_release(&mut self)
        requires
            old(self)@.wf(),
            old(self)@.outstanding() > 0,
        ensures
            final(self)@.wf(),
            final(self)@ == (ArenaView { returned: old(self)@.returned + 1, ..old(self)@ }),
    {
        self.remote_returns = self.remote_returns + 1;
    }

    /// Whether a lease is still out.
    pub fn has_outstanding_leases(&self) -> (r: bool)
        requires
            self@.wf(),
        ensures
            r <==> self@.outstanding() > 0,
    {
        self.lease_count > self.remote_returns
    }

    /// Number of outstanding leases: taken minus given back, on any thread.
    pub fn lease_count(&self) -> (r: usize)
        requires
            self@.wf(),
        ensures
            r == self@.outstanding(),
    {
        self.lease_count - self.remote_returns
    }

    /// How many leases other threads have given back since the last reset.
    pub fn remote_returns(&self) -> (r: usize)
        ensures
            r == self@.returned,
    {
        self.remote_returns
    }

    /// Bytes remaining in this arena.
    pub fn available(&self) -> (r: usize)
        requires
            self@.wf(),
        ensures
            r == self@.available(),
    {
        self.region.len() - self.offset
    }

    /// Total capacity of this arena.
    pub fn capacity(&self) -> (r: usize)
        ensures
            r == self@.capacity(),
    {
        self.region.len()
    }

    /// Bytes allocated so far.
    pub fn used(&self) -> (r: usize)
        ensures
            r == self@.used,
    {
        self.offset
    }

    /// Current lifecycle state.
    pub fn state(&self) -> (r: ArenaState)
        ensures
            r == self@.state,
    {
        self.state
    }

    /// Sets the lifecycle state.
    pub fn set_state(&mut self, state: ArenaState)
        ensures
            final(self)@ == (ArenaView { state, ..old(self)@ }),
    {
        self.state = state;
    }

    /// The epoch this arena is associated with.
    pub fn epoch(&self) -> (r: u64)
        ensures
            r == self@.epoch,
    {
        self.epoch
    }

    /// Sets the epoch, when the arena is activated.
    pub fn set_epoch(&mut self, epoch: u64)
        ensures
            final(self)@ == (ArenaView { epoch, ..old(self)@ }),
    {
        self.epoch = epoch;
    }

    /// Makes the arena ready for reuse: the bump offset, the buffer ids and both
    /// lease counters start over, and the arena is writable. The memory and the
    /// epoch stay as they are.
    pub fn reset(&mut self)
        requires
            old(self)@.wf(),
        ensures
            final(self)@.wf(),
            final(self)@ == old(self)@.recycled(old(self)@.epoch),
    {
        self.offset = 0;
        self.next_buf_id = 0;
        self.lease_count = 0;
        self.remote_returns = 0;
        self.state = ArenaState::Writable;
    }

    /// The whole pages behind the used part of the arena, which the kernel may
    /// take back while the arena is idle.
    pub fn advise_free_unused(&self, page_size: usize) -> (r: Option<PageRange>)
        requires
            self@.wf(),
            crate::config::is_power_of_two(page_size as int),
        ensures
            r == self@.idle_pages(page_size as int),
    {
        proof {
            let k = choose|k: nat|
                page_size as int == #[trigger] vstd::arithmetic::power2::pow2(k);
            vstd::arithmetic::power2::lemma_pow2_pos(k);
            round_up_by_remainder(self.offset as int, page_size as int);
        }
        let capacity: usize = self.region.len();
        let over: usize = self.offset % page_size;
        let start: usize = if over == 0 {
            self.offset
        } else if page_size - over < capacity - self.offset {
            self.offset + (page_size - over)
        } else {
            return None;
        };
        if start < capacity {
            Some(PageRange { start, len: capacity - start })
        } else {
            None
        }
    }

    /// The entire arena, as the ring wants to know it.
    pub fn as_iovec(&self) -> (r: &[u8])
        ensures
            r@ == self@.bytes,
    {
        &*self.region
    }

    /// Ends the arena: its memory, to be unmapped, and the number of leases that
    /// were still out.
    pub fn close(self) -> (r: (&'static mut [u8], usize))
        requires
            self@.wf(),
        ensures
            r.0@ == self@.bytes,
            r.1 == self@.outstanding(),
    {
        let leaked: usize = self.lease_count - self.remote_returns;
        (self.region, leaked)
    }

    /// The `len` bytes from `start`, to read.
    pub fn slice(&self, start: usize, len: usize) -> (r: &[u8])
        requires
            start + len <= self@.capacity(),
        ensures
            r@ == self@.bytes.subrange(start as int, start + len),
    {
        let size: usize = self.region.len();
        assert(start + len <= size);
        &self.region[start..start + len]
    }

    /// The `len` bytes from `start`, to write. What is written there is what
    /// the arena holds there afterwards, and the rest of it is untouched.
    pub fn slice_mut(&mut self, start: usize, len: usize) -> (r: &mut [u8])
        requires
            old(self)@.wf(),
            start + len <= old(self)@.capacity(),
        ensures
            r@ == old(self)@.bytes.subrange(start as int, start + len),
            final(r)@.len() == len ==> final(self)@ == old(self)@.with_bytes(
                start as int,
                final(r)@,
            ) && final(self)@.wf(),
    {
        let (_, rest) = self.region.split_at_mut(start);
        let (window, _) = rest.split_at_mut(len);
        window
    }
}

/// Rounding up gives a multiple that is not below the number and not a whole page
/// above it, so there is no multiple in between.
pub proof fn round_up_is_next_multiple(n: int, page: int, other: int)
    requires
        n >= 0,
        page > 0,
    ensures
        round_up(n, page) % page == 0,
        n <= round_up(n, page) < n + page,
        n <= other && other % page == 0 ==> round_up(n, page) <= other,
{
    round_up_by_remainder(n, page);
    let q = (n + page - 1) / page;
    vstd::arithmetic::div_mod::lemma_mod_multiples_basic(q, page);
    vstd::arithmetic::div_mod::lemma_fundamental_div_mod(n, page);
    vstd::arithmetic::div_mod::lemma_mod_bound(n, page);
    if n <= other && other % page == 0 {
        let a = round_up(n, page);
        let m = other / page;
        vstd::arithmetic::div_mod::lemma_fundamental_div_mod(other, page);
        if other < a {
            assert(q * page == page * q) by (nonlinear_arith);
            assert(m >= q) by (nonlinear_arith)
                requires
                    page * m == other,
                    page * q == a,
                    a < n + page,
                    n <= other,
                    page > 0,
            ;
            assert(page * m >= page * q) by (nonlinear_arith)
                requires
                    m >= q,
                    page > 0,
            ;
        }
    }
}

/// Rounding up leaves a multiple alone and otherwise adds what is missing to
/// the next one.
proof fn round_up_by_remainder(n: int, page: int)
    requires
        n >= 0,
        page > 0,
    ensures
        round_up(n, page) == if n % page == 0 {
            n
        } else {
            n + (page - n % page)
        },
{
    let q = n / page;
    let r = n % page;
    vstd::arithmetic::div_mod::lemma_fundamental_div_mod(n, page);
    assert(page * q == q * page) by (nonlinear_arith);
    if r == 0 {
        vstd::arithmetic::div_mod::lemma_fundamental_div_mod_converse(
            n + page - 1,
            page,
            q,
            page - 1,
        );
    } else {
        assert((q + 1) * page == q * page + page) by (nonlinear_arith);
        vstd::arithmetic::div_mod::lemma_fundamental_div_mod_converse(
            n + page - 1,
            page,
            q + 1,
            r - 1,
        );
    }
}

} // verus!
