//! Buffer and arena sizes of the workloads.
use vstd::prelude::*;

verus! {

/// The page size that arenas are aligned to.
pub const PAGE: usize = 4096;

/// The buffer sizes that are measured.
pub fn sizes() -> (r: Vec<usize>)
    ensures
        r@ == seq![64usize, 512usize, 4096usize, 65536usize],
{
    vec![64, 512, 4096, 65536]
}

/// `n` rounded up to a multiple of the page size.
pub fn page_align(n: usize) -> (r: usize)
    requires
        n + 4095 <= usize::MAX,
    ensures
        r == crate::epoch::arena::round_up(n as int, 4096),
        r as int % 4096 == 0,
        n <= r < n + 4096,
{
    let m: usize = n + 4095;
    assert(m & !4095usize == (m / 4096) * 4096) by (bit_vector);
    assert((m / 4096) * 4096 <= m) by (bit_vector);
    m & !4095
}

/// Compute arena size for a given buffer size.
/// Ensures at least 64 buffers fit, rounded up to page alignment.
pub fn arena_size_for(buf_size: usize) -> (r: usize)
    requires
        buf_size * 64 + 4095 <= usize::MAX,
    ensures
        r == if buf_size == 0 {
            4096
        } else {
            crate::epoch::arena::round_up(buf_size * 64, 4096)
        },
        r >= 64 * buf_size,
        r >= 4096,
        buf_size > 0 ==> r < 64 * buf_size + 4096,
        r as int % 4096 == 0,
{
    let min: usize = buf_size * 64;
    let aligned: usize = page_align(min);
    if aligned < PAGE {
        PAGE
    } else {
        aligned
    }
}

} // verus!
