//! Buffers in a slab, named by their keys.
use slab::Slab;
use vstd::prelude::*;

use crate::bench::competitors::vec_baseline::VecBaseline;

verus! {

/// The slab of the `slab` crate.
#[verifier::external_type_specification]
#[verifier::external_body]
#[verifier::reject_recursive_types(T)]
pub struct ExSlab<T>(slab::Slab<T>);

/// The values in a slab by their keys.
pub uninterp spec fn slab_held(slab: Slab<Vec<u8>>) -> Map<int, Seq<u8>>;

/// The keys in a slab that were freed and are not used again yet, the one that
/// was freed last at the end.
pub uninterp spec fn slab_vacant(slab: Slab<Vec<u8>>) -> Seq<int>;

/// The key that the next value gets: the one that was freed last, or the next
/// in line if none is free.
pub open spec fn next_key(held: Map<int, Seq<u8>>, vacant: Seq<int>) -> int {
    if vacant.len() > 0 {
        vacant.last()
    } else {
        held.len() as int
    }
}

/// The freed keys after the next one was used.
pub open spec fn next_vacant(vacant: Seq<int>) -> Seq<int> {
    if vacant.len() > 0 {
        vacant.drop_last()
    } else {
        vacant
    }
}

/// `Slab::new` makes an empty slab.
#[verifier::external_body]
fn new_slab() -> (r: Slab<Vec<u8>>)
    ensures
        slab_held(r).dom() == Set::<int>::empty(),
        slab_vacant(r) == Seq::<int>::empty(),
{
    Slab::new()
}

/// `Slab::insert` stores a value under the next key, which was free, and
/// returns the key. It panics if its storage would exceed what an allocation
/// can have, so the number of values is bounded.
#[verifier::external_body]
fn insert(slab: &mut Slab<Vec<u8>>, value: Vec<u8>) -> (r: usize)
    requires
        slab_held(*old(slab)).len() < isize::MAX / 64,
    ensures
        r == next_key(slab_held(*old(slab)), slab_vacant(*old(slab))),
        slab_vacant(*final(slab)) == next_vacant(slab_vacant(*old(slab))),
        !slab_held(*old(slab)).contains_key(r as int),
        slab_held(*final(slab)) == slab_held(*old(slab)).insert(r as int, value@),
        slab_held(*final(slab)).dom().finite(),
{
    slab.insert(value)
}

/// `Slab::remove` takes out the value under a key. The key is free then, and
/// the next to be used.
#[verifier::external_body]
fn remove(slab: &mut Slab<Vec<u8>>, key: usize) -> (r: Vec<u8>)
    requires
        slab_held(*old(slab)).contains_key(key as int),
    ensures
        r@ == slab_held(*old(slab))[key as int],
        slab_held(*final(slab)) == slab_held(*old(slab)).remove(key as int),
        slab_vacant(*final(slab)) == slab_vacant(*old(slab)).push(key as int),
{
    slab.remove(key)
}

/// What a [`SlabPool`] is: the leased buffers by their keys, and the freed keys.
#[verifier::ext_equal]
pub struct SlabPoolView {
    pub leased: Map<int, Seq<u8>>,
    /// Freed keys, the one that was freed last at the end.
    pub vacant: Seq<int>,
}

/// Buffers in a slab. Threads share it behind a lock.
pub struct SlabPool {
    inner: Slab<Vec<u8>>,
}

impl View for SlabPool {
    type V = SlabPoolView;

    closed spec fn view(&self) -> SlabPoolView {
        SlabPoolView { leased: slab_held(self.inner), vacant: slab_vacant(self.inner) }
    }
}

impl SlabPool {
    /// An empty pool.
    pub fn new() -> (r: Self)
        ensures
            r@.leased == Map::<int, Seq<u8>>::empty(),
            r@.vacant == Seq::<int>::empty(),
    {
        Self { inner: new_slab() }
    }

    /// Stores a new buffer of `len` zero bytes and returns its key.
    pub fn lease(&mut self, len: usize) -> (r: usize)
        requires
            old(self)@.leased.len() < isize::MAX / 64,
        ensures
            r == next_key(old(self)@.leased, old(self)@.vacant),
            final(self)@.vacant == next_vacant(old(self)@.vacant),
            !old(self)@.leased.contains_key(r as int),
            final(self)@.leased == old(self)@.leased.insert(
                r as int,
                crate::bench::competitors::vec_baseline::zeros(len as nat),
            ),
            final(self)@.leased.dom().finite(),
    {
        insert(&mut self.inner, VecBaseline::lease(len))
    }

    /// Drops the buffer under a key. The next lease gets the key.
    pub fn release(&mut self, key: usize)
        requires
            old(self)@.leased.contains_key(key as int),
        ensures
            final(self)@.leased == old(self)@.leased.remove(key as int),
            final(self)@.vacant == old(self)@.vacant.push(key as int),
    {
        let _ = remove(&mut self.inner, key);
    }
}

impl Default for SlabPool {
    fn default() -> (r: Self)
        ensures
            r@.leased == Map::<int, Seq<u8>>::empty(),
            r@.vacant == Seq::<int>::empty(),
    {
        Self::new()
    }
}

/// A key that is given back is the next to be handed out.
pub proof fn freed_key_is_next(leased: Map<int, Seq<u8>>, vacant: Seq<int>, key: int)
    ensures
        next_key(leased.remove(key), vacant.push(key)) == key,
        next_vacant(vacant.push(key)) == vacant,
{
    assert(vacant.push(key).drop_last() =~= vacant);
}

/// The next key is the one that was freed last, which is used up then; if none is
/// free, it is the number of buffers, and stays so until one is freed.
pub proof fn keys_are_used_again(leased: Map<int, Seq<u8>>, vacant: Seq<int>)
    ensures
        vacant.len() > 0 ==> next_key(leased, vacant) == vacant[vacant.len() - 1],
        vacant.len() == 0 ==> next_key(leased, vacant) == leased.dom().len(),
        vacant.len() > 0 ==> next_vacant(vacant).len() == vacant.len() - 1,
        vacant.len() == 0 ==> next_vacant(vacant).len() == 0,
        forall|k: int|
            0 <= k < next_vacant(vacant).len() ==> #[trigger] next_vacant(vacant)[k] == vacant[k],
{
}

} // verus!
