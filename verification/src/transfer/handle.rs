//! A lease that crosses threads.
use vstd::prelude::*;

use crate::buffer::leased::Lease;
use crate::epoch::arena::{Arena, ArenaView};
use crate::types::ArenaIdx;

verus! {

/// A buffer that can be sent across threads.
///
/// It still stands for its lease. Giving it back counts as a remote return of
/// the arena, which the owning thread sees on its next `collect`. One that is
/// dropped keeps its arena leased.
pub struct SendableBuffer {
    start: usize,
    len: usize,
    epoch: u64,
    arena_idx: ArenaIdx,
    number: Ghost<nat>,
    home: Ghost<int>,
}

impl SendableBuffer {
    /// The lease that this buffer stands for.
    pub closed spec fn lease(&self) -> Lease {
        Lease {
            number: self.number@,
            home: self.home@,
            arena: self.arena_idx@,
            start: self.start as nat,
            len: self.len as nat,
            epoch: self.epoch,
        }
    }

    /// A sendable buffer over `len` bytes from `start` of the arena at
    /// `arena_idx`.
    pub(crate) fn new(
        start: usize,
        len: usize,
        epoch: u64,
        arena_idx: ArenaIdx,
        number: Ghost<nat>,
        home: Ghost<int>,
    ) -> (r: Self)
        ensures
            r.lease() == (Lease {
                number: number@,
                home: home@,
                arena: arena_idx@,
                start: start as nat,
                len: len as nat,
                epoch,
            }),
    {
        Self { start, len, epoch, arena_idx, number, home }
    }

    /// Read the buffer contents.
    pub fn as_slice<'a>(&self, arena: &'a Arena) -> (r: &'a [u8])
        requires
            self.lease().home == arena@.id,
            self.lease().end() <= arena@.capacity(),
        ensures
            r@ == self.lease().of(arena@),
    {
        arena.slice(self.start, self.len)
    }

    /// Length of the buffer in bytes.
    pub fn len(&self) -> (r: usize)
        ensures
            r == self.lease().len,
    {
        self.len
    }

    /// Returns `true` if the buffer has zero length.
    pub fn is_empty(&self) -> (r: bool)
        ensures
            r <==> self.lease().len == 0,
    {
        self.len == 0
    }

    /// The epoch this buffer belongs to.
    pub fn epoch(&self) -> (r: u64)
        ensures
            r == self.lease().epoch,
    {
        self.epoch
    }

    /// The index of the arena in the slab.
    pub fn arena_idx(&self) -> (r: ArenaIdx)
        ensures
            r@ == self.lease().arena,
    {
        self.arena_idx
    }

    /// Gives the lease back to its arena, as another thread does.
    pub fn release(self, arena: &mut Arena)
        requires
            old(arena)@.wf(),
            self.lease().home == old(arena)@.id,
            old(arena)@.outstanding() > 0,
        ensures
            final(arena)@.wf(),
            final(arena)@ == (ArenaView { returned: old(arena)@.returned + 1, ..old(arena)@ }),
    {
        arena.remote_release();
    }
}

} // verus!
