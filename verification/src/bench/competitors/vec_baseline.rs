//! A fresh vector for every buffer.
use vstd::prelude::*;

verus! {

/// `len` zero bytes.
pub open spec fn zeros(len: nat) -> Seq<u8> {
    Seq::new(len, |i: int| 0u8)
}

/// The plain heap allocator.
pub struct VecBaseline;

impl VecBaseline {
    /// A new buffer of `len` zero bytes.
    pub fn lease(len: usize) -> (r: Vec<u8>)
        ensures
            r@ == zeros(len as nat),
    {
        vec![0u8; len]
    }

    /// Drops a buffer.
    pub fn release(_buf: Vec<u8>) {
    }
}

/// A new buffer has the length that was asked for, and holds nothing but zeros.
pub proof fn new_buffers_are_zero(len: nat)
    ensures
        zeros(len).len() == len,
        forall|k: int| 0 <= k < len ==> #[trigger] zeros(len)[k] == 0,
{
}

} // verus!
