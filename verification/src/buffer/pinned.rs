//! A buffer pinned while the ring works on it.
use vstd::prelude::*;

use crate::buffer::leased::{Lease, LeasedBuffer};
use crate::epoch::arena::Arena;
use crate::types::SlotId;

verus! {

/// A borrow guard that pins a `LeasedBuffer` during io_uring submission.
///
/// The buffer cannot be given back while I/O is in flight, because the guard
/// lives off a mutable borrow of it.
pub struct PinnedWrite<'a> {
    buffer: &'a LeasedBuffer,
}

impl<'a> PinnedWrite<'a> {
    /// The buffer that is pinned.
    pub closed spec fn pinned(&self) -> LeasedBuffer {
        *self.buffer
    }

    /// The lease of the pinned buffer.
    pub open spec fn lease(&self) -> Lease {
        self.pinned().lease()
    }

    /// The registration slot of the pinned buffer.
    pub open spec fn slot(&self) -> int {
        self.pinned().slot()
    }

    /// Pins a buffer.
    pub(crate) fn new(buffer: &'a mut LeasedBuffer) -> (r: Self)
        ensures
            r.pinned() == *old(buffer),
            *final(buffer) == *old(buffer),
    {
        Self { buffer }
    }

    /// Where the pinned buffer starts within its arena, for the ring.
    pub fn offset(&self) -> (r: usize)
        ensures
            r == self.lease().start,
    {
        self.buffer.offset()
    }

    /// The pinned bytes, for the ring to read.
    pub fn as_slice<'b>(&self, arena: &'b Arena) -> (r: &'b [u8])
        requires
            self.lease().home == arena@.id,
            self.lease().end() <= arena@.capacity(),
        ensures
            r@ == self.lease().of(arena@),
    {
        self.buffer.as_slice(arena)
    }

    /// The pinned bytes, for the ring to write.
    pub fn as_mut_slice<'b>(&mut self, arena: &'b mut Arena) -> (r: &'b mut [u8])
        requires
            old(arena)@.wf(),
            old(self).lease().home == old(arena)@.id,
            old(self).lease().end() <= old(arena)@.capacity(),
        ensures
            *final(self) == *old(self),
            r@ == old(self).lease().of(old(arena)@),
            final(r)@.len() == r@.len() ==> final(arena)@ == old(arena)@.with_bytes(
                old(self).lease().start as int,
                final(r)@,
            ) && final(arena)@.wf(),
    {
        arena.slice_mut(self.buffer.offset(), self.buffer.len())
    }

    /// Length of the pinned buffer in bytes.
    pub fn len(&self) -> (r: usize)
        ensures
            r == self.lease().len,
    {
        self.buffer.len()
    }

    /// Returns `true` if the pinned buffer has zero length.
    pub fn is_empty(&self) -> (r: bool)
        ensures
            r <==> self.lease().len == 0,
    {
        self.buffer.is_empty()
    }

    /// The io_uring registration slot index for fixed-buffer operations.
    pub fn buf_index(&self) -> (r: SlotId)
        ensures
            r@ == self.slot(),
    {
        self.buffer.slot_id()
    }
}

} // verus!
