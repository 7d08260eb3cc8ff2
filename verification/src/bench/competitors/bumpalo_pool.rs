//! A bump allocator that is reset as a whole.
use bumpalo::Bump;
use vstd::prelude::*;

verus! {

/// The bump allocator of the `bumpalo` crate.
#[verifier::external_type_specification]
#[verifier::external_body]
pub struct ExBump<const MIN_ALIGN: usize>(bumpalo::Bump<MIN_ALIGN>);

/// The lengths of the slices that a bump allocator has handed out since it was
/// made or last reset.
pub uninterp spec fn slices_out(bump: Bump) -> Seq<nat>;

/// What can be asked for at once: the chunk that holds it, with its footer and
/// rounded up to a page, has to be a possible allocation.
pub open spec fn fits_chunk(len: usize) -> bool {
    len + 8192 <= isize::MAX
}

/// `Bump::with_capacity` makes an allocator that has handed out nothing yet.
#[verifier::external_body]
fn with_capacity(capacity: usize) -> (r: Bump)
    requires
        fits_chunk(capacity),
    ensures
        slices_out(r) == Seq::<nat>::empty(),
{
    Bump::with_capacity(capacity)
}

/// `Bump::alloc_slice_fill_default` hands out a slice of `len` default values,
/// which are zeros here.
#[verifier::external_body]
fn alloc_zeros(bump: &mut Bump, len: usize) -> (r: &mut [u8])
    requires
        fits_chunk(len),
    ensures
        r@ == crate::bench::competitors::vec_baseline::zeros(len as nat),
        slices_out(*final(bump)) == slices_out(*old(bump)).push(len as nat),
{
    bump.alloc_slice_fill_default(len)
}

/// `Bump::reset` takes back everything that was handed out.
#[verifier::external_body]
fn reset(bump: &mut Bump)
    ensures
        slices_out(*final(bump)) == Seq::<nat>::empty(),
{
    bump.reset()
}

/// Buffers out of one bump allocator.
pub struct BumpaloPool {
    bump: Bump,
}

impl View for BumpaloPool {
    type V = Seq<nat>;

    /// The lengths of the buffers leased since the last reset.
    closed spec fn view(&self) -> Seq<nat> {
        slices_out(self.bump)
    }
}

impl BumpaloPool {
    /// A pool with room for `capacity` bytes before it has to grow.
    pub fn new(capacity: usize) -> (r: Self)
        requires
            fits_chunk(capacity),
        ensures
            r@ == Seq::<nat>::empty(),
    {
        Self { bump: with_capacity(capacity) }
    }

    /// Allocate a zeroed slice from the bump allocator.
    pub fn lease(&mut self, len: usize) -> (r: &mut [u8])
        requires
            fits_chunk(len),
        ensures
            r@ == crate::bench::competitors::vec_baseline::zeros(len as nat),
            final(self)@ == old(self)@.push(len as nat),
    {
        alloc_zeros(&mut self.bump, len)
    }

    /// Reset the bump allocator, reclaiming all memory.
    pub fn reset(&mut self)
        ensures
            final(self)@ == Seq::<nat>::empty(),
    {
        reset(&mut self.bump);
    }
}

} // verus!
