//! A leased piece of an arena.
use std::marker::PhantomData;
use std::rc::Rc;
use vstd::prelude::*;

use crate::buffer::pinned::PinnedWrite;
use crate::epoch::arena::{Arena, ArenaView};
use crate::transfer::handle::SendableBuffer;
use crate::types::{ArenaIdx, SlotId};

verus! {

/// What a lease is about: `len` bytes from `start` of the arena with the identity
/// `home`, at slab index `arena`, while that arena serves `epoch`. The number
/// tells leases apart that agree in everything else.
///
/// The identity is what ties a lease to its pool: a lease from another pool, or
/// from an arena of its own, names an arena that the pool does not have.
pub struct Lease {
    pub number: nat,
    pub home: int,
    pub arena: int,
    pub start: nat,
    pub len: nat,
    pub epoch: u64,
}

impl Lease {
    /// The first byte behind the lease.
    pub open spec fn end(self) -> nat {
        self.start + self.len
    }

    /// The leased bytes of an arena.
    pub open spec fn of(self, arena: ArenaView) -> Seq<u8> {
        arena.bytes.subrange(self.start as int, self.end() as int)
    }

    /// No byte belongs to both leases.
    pub open spec fn apart(self, other: Lease) -> bool {
        self.arena != other.arena || self.end() <= other.start || other.end() <= self.start
    }
}

/// A leased buffer from an epoch arena. It stays on the owning thread.
///
/// It names the leased bytes; the arena holds them. It cannot be copied, and only
/// leasing makes one, from a pool or from an arena of its own: each one stands
/// for one lease of one arena, until it is given back there. It is given back by
/// `release`; one that is dropped keeps its arena leased.
pub struct LeasedBuffer {
    start: usize,
    len: usize,
    epoch: u64,
    buf_id: u32,
    slot_id: SlotId,
    arena_idx: ArenaIdx,
    number: Ghost<nat>,
    home: Ghost<int>,
    /// Keeps the buffer on its thread.
    _not_send: PhantomData<Rc<()>>,
}

impl LeasedBuffer {
    /// The lease that this buffer stands for.
    pub closed spec fn lease(&self) -> Lease {
        Lease {
            number: self.number@,
            home: self.home@,
            arena: self.arena_idx@,
            start: self.start as nat,
            len: self.len as nat,
            epoch: self.epoch,
        }
    }

    /// The number of the buffer within its arena.
    pub closed spec fn id(&self) -> u32 {
        self.buf_id
    }

    /// The registration slot of the arena.
    pub closed spec fn slot(&self) -> int {
        self.slot_id@
    }

    /// A buffer over `len` bytes from `start` of the arena at `arena_idx`.
    pub(crate) fn new(
        start: usize,
        len: usize,
        epoch: u64,
        buf_id: u32,
        slot_id: SlotId,
        arena_idx: ArenaIdx,
        Ghost(number): Ghost<nat>,
        Ghost(home): Ghost<int>,
    ) -> (r: Self)
        ensures
            r.lease() == (Lease {
                number,
                home,
                arena: arena_idx@,
                start: start as nat,
                len: len as nat,
                epoch,
            }),
            r.id() == buf_id,
            r.slot() == slot_id@,
    {
        Self {
            start,
            len,
            epoch,
            buf_id,
            slot_id,
            arena_idx,
            number: Ghost(number),
            home: Ghost(home),
            _not_send: PhantomData,
        }
    }

    /// Leases the next `len` bytes of an arena of its own, outside of any pool.
    ///
    /// Returns `None` if the arena has fewer bytes left.
    pub fn lease_from(arena: &mut Arena, len: usize, slot_id: SlotId, arena_idx: ArenaIdx) -> (r:
        Option<LeasedBuffer>)
        requires
            old(arena)@.wf(),
            len <= old(arena)@.available() ==> old(arena)@.acquired < usize::MAX,
        ensures
            final(arena)@.wf(),
            if len <= old(arena)@.available() {
                &&& r matches Some(buf)
                &&& buf.lease() == (Lease {
                    number: old(arena)@.acquired,
                    home: old(arena)@.id,
                    arena: arena_idx@,
                    start: old(arena)@.used,
                    len: len as nat,
                    epoch: old(arena)@.epoch,
                })
                &&& buf.id() == old(arena)@.next_buf_id
                &&& buf.slot() == slot_id@
                &&& final(arena)@ == old(arena)@.leased(len as nat)
            } else {
                r is None && final(arena)@ == old(arena)@
            },
    {
        let ghost number = arena@.acquired;
        let ghost home = arena@.id;
        match arena.allocate(len) {
            Some((start, buf_id)) => {
                arena.acquire_lease();
                let epoch: u64 = arena.epoch();
                Some(
                    Self::new(
                        start,
                        len,
                        epoch,
                        buf_id,
                        slot_id,
                        arena_idx,
                        Ghost(number),
                        Ghost(home),
                    ),
                )
            },
            None => None,
        }
    }

    /// View the buffer contents as a byte slice.
    pub fn as_slice<'a>(&self, arena: &'a Arena) -> (r: &'a [u8])
        requires
            self.lease().home == arena@.id,
            self.lease().end() <= arena@.capacity(),
        ensures
            r@ == self.lease().of(arena@),
    {
        arena.slice(self.start, self.len)
    }

    /// View the buffer contents as a mutable byte slice. What is written there
    /// is what the arena holds there afterwards; nothing else changes.
    pub fn as_mut_slice<'a>(&mut self, arena: &'a mut Arena) -> (r: &'a mut [u8])
        requires
            old(arena)@.wf(),
            old(self).lease().home == old(arena)@.id,
            old(self).lease().end() <= old(arena)@.capacity(),
        ensures
            *final(self) == *old(self),
            r@ == old(self).lease().of(old(arena)@),
            final(r)@.len() == r@.len() ==> final(arena)@ == old(arena)@.with_bytes(
                old(self).lease().start as int,
                final(r)@,
            ) && final(arena)@.wf(),
    {
        arena.slice_mut(self.start, self.len)
    }

    /// Copy the buffer contents into a new `Vec<u8>`.
    pub fn copy_out(&self, arena: &Arena) -> (r: Vec<u8>)
        requires
            self.lease().home == arena@.id,
            self.lease().end() <= arena@.capacity(),
        ensures
            r@ == self.lease().of(arena@),
    {
        vstd::slice::slice_to_vec(self.as_slice(arena))
    }

    /// The epoch this buffer belongs to.
    pub fn epoch(&self) -> (r: u64)
        ensures
            r == self.lease().epoch,
    {
        self.epoch
    }

    /// The buffer id within the arena.
    pub fn buf_id(&self) -> (r: u32)
        ensures
            r == self.id(),
    {
        self.buf_id
    }

    /// The index of the arena in the slab.
    pub fn arena_idx(&self) -> (r: ArenaIdx)
        ensures
            r@ == self.lease().arena,
    {
        self.arena_idx
    }

    /// Where the buffer starts within the arena.
    pub fn offset(&self) -> (r: usize)
        ensures
            r == self.lease().start,
    {
        self.start
    }

    /// The io_uring registration slot for this buffer's arena.
    pub fn slot_id(&self) -> (r: SlotId)
        ensures
            r@ == self.slot(),
    {
        self.slot_id
    }

    /// Length of the buffer in bytes.
    pub fn len(&self) -> (r: usize)
        ensures
            r == self.lease().len,
    {
        self.len
    }

    /// Returns `true` if the buffer has zero length.
    pub fn is_empty(&self) -> (r: bool)
        ensures
            r <==> self.lease().len == 0,
    {
        self.len == 0
    }

    /// Convert this leased buffer into a [`SendableBuffer`] that can cross
    /// thread boundaries. The lease stays alive: the sendable buffer now stands
    /// for it.
    pub fn into_sendable(self) -> (r: SendableBuffer)
        ensures
            r.lease() == self.lease(),
    {
        SendableBuffer::new(
            self.start,
            self.len,
            self.epoch,
            self.arena_idx,
            self.number,
            self.home,
        )
    }

    /// Pin this buffer for an io_uring write submission.
    ///
    /// The returned `PinnedWrite` borrows this buffer mutably, so it cannot be
    /// given back while I/O is in flight.
    pub fn pin_for_write(&mut self) -> (r: PinnedWrite<'_>)
        ensures
            r.pinned() == *old(self),
            *final(self) == *old(self),
    {
        PinnedWrite::new(self)
    }

    /// Gives the lease back to its arena.
    pub fn release(self, arena: &mut Arena)
        requires
            old(arena)@.wf(),
            self.lease().home == old(arena)@.id,
            old(arena)@.outstanding() > 0,
        ensures
            final(arena)@.wf(),
            final(arena)@ == (ArenaView {
                acquired: (old(arena)@.acquired - 1) as nat,
                ..old(arena)@
            }),
    {
        arena.release_lease();
    }
}

} // verus!
