//! Index newtypes that keep slab indices and registration slots apart.
use vstd::prelude::*;

use crate::text::push_decimal;

verus! {

/// Type-safe wrapper for arena slab indices.
#[derive(Debug, Clone, Copy, PartialEq, Eq, Hash, Structural)]
pub struct ArenaIdx(usize);

impl View for ArenaIdx {
    type V = int;

    closed spec fn view(&self) -> int {
        self.0 as int
    }
}

impl ArenaIdx {
    /// Wraps a slab index.
    pub fn new(idx: usize) -> (r: Self)
        ensures
            r@ == idx,
    {
        Self(idx)
    }

    /// The slab index.
    pub fn as_usize(self) -> (r: usize)
        ensures
            r == self@,
    {
        self.0
    }

    /// The index in decimal.
    pub fn to_string(&self) -> (r: String)
        ensures
            r@ == crate::text::decimal(self@ as nat),
    {
        let mut out = String::new();
        push_decimal(&mut out, self.0 as u64);
        out
    }

    /// An index is determined by the number it wraps.
    pub proof fn view_is_injective(a: ArenaIdx, b: ArenaIdx)
        requires
            a@ == b@,
        ensures
            a == b,
    {
    }

    /// Every index is a machine index.
    pub proof fn view_in_range(a: ArenaIdx)
        ensures
            0 <= a@ <= usize::MAX,
    {
    }
}

/// Type-safe wrapper for io_uring registration slot ids.
#[derive(Debug, Clone, Copy, PartialEq, Eq, Hash, Structural)]
pub struct SlotId(u16);

impl View for SlotId {
    type V = int;

    closed spec fn view(&self) -> int {
        self.0 as int
    }
}

impl SlotId {
    /// Wraps a slot number.
    pub fn new(id: u16) -> (r: Self)
        ensures
            r@ == id,
    {
        Self(id)
    }

    /// The slot number.
    pub fn as_u16(self) -> (r: u16)
        ensures
            r == self@,
    {
        self.0
    }

    /// The slot number in decimal.
    pub fn to_string(&self) -> (r: String)
        ensures
            r@ == crate::text::decimal(self@ as nat),
    {
        let mut out = String::new();
        push_decimal(&mut out, self.0 as u64);
        out
    }

    /// A slot is determined by the number it wraps.
    pub proof fn view_is_injective(a: SlotId, b: SlotId)
        requires
            a@ == b@,
        ensures
            a == b,
    {
    }
}

} // verus!
