//! Buffers in a slab that threads share without a lock.
use sharded_slab::Slab;
use std::sync::Arc;
use vstd::prelude::*;

use crate::bench::competitors::vec_baseline::VecBaseline;

verus! {

/// A number of values that the slab has room for, whichever thread stores them.
/// Each thread has a shard of its own in the slab. The pages of a shard hold 32
/// values, then twice as many each. A shard has as many pages as half the bits
/// of a word: 16 or more, which together hold this many values or more.
pub const SHARD_ROOM: usize = 2_097_120;

/// A slab of the `sharded-slab` crate, shared between threads.
#[verifier::external_body]
pub struct SharedSlab {
    slab: Arc<Slab<Vec<u8>>>,
}

/// Whether a slab is in the hands of its owner alone and in order: there is no
/// other pointer to it, and its lists of free slots name each of them once.
pub uninterp spec fn slab_alone(shared: SharedSlab) -> bool;

/// The values by their keys in a slab that is in the hands of its owner alone,
/// or what they were when it last was. What a slab holds after that is not
/// described: other threads may change it at any time.
pub uninterp spec fn slab_held(shared: SharedSlab) -> Map<int, Seq<u8>>;

/// Whether a value was stored under a key that was free, or none was because
/// there may be no room.
pub open spec fn inserted(
    before: Map<int, Seq<u8>>,
    after: Map<int, Seq<u8>>,
    value: Seq<u8>,
    key: Option<usize>,
) -> bool {
    match key {
        Some(key) => {
            &&& !before.contains_key(key as int)
            &&& after == before.insert(key as int, value)
        },
        None => {
            &&& before.len() >= SHARD_ROOM
            &&& after == before
        },
    }
}

/// `Slab::new` makes an empty slab.
#[verifier::external_body]
fn new_slab() -> (r: SharedSlab)
    ensures
        slab_alone(r),
        slab_held(r).dom() == Set::<int>::empty(),
{
    SharedSlab { slab: Arc::new(Slab::new()) }
}

/// `Arc::clone` gives another pointer to the same slab and leaves the slab as it
/// is. From then on whoever has the other pointer may change it.
#[verifier::external_body]
fn share(shared: &mut SharedSlab) -> (r: SharedSlab)
    ensures
        r == *final(shared),
        slab_alone(*old(shared)) ==> slab_held(*final(shared)) == slab_held(*old(shared)),
{
    SharedSlab { slab: Arc::clone(&shared.slab) }
}

/// `Slab::insert` stores a value under a free key of the calling thread's shard
/// and returns the key, or `None` if that shard is full. Which of the free keys
/// it is depends on the thread. If other threads have the slab too, nothing is
/// claimed: what it holds then depends on what they do. It panics on a thread
/// for which it has no shard: it has one for each of 4096 threads, or of 128
/// where a word has 32 bits.
#[verifier::external_body]
fn insert(shared: &mut SharedSlab, value: Vec<u8>) -> (r: Option<usize>)
    ensures
        slab_alone(*old(shared)) ==> slab_alone(*final(shared)),
        slab_alone(*old(shared)) ==> slab_held(*final(shared)).dom().finite(),
        slab_alone(*old(shared)) ==> inserted(
            slab_held(*old(shared)),
            slab_held(*final(shared)),
            value@,
            r,
        ),
{
    shared.slab.insert(value)
}

/// `Slab::contains` says whether the slab holds a value under a key. If other
/// threads have the slab too, nothing is claimed: that depends on what they do.
#[verifier::external_body]
fn contains(shared: &SharedSlab, key: usize) -> (r: bool)
    ensures
        slab_alone(*shared) ==> (r <==> slab_held(*shared).contains_key(key as int)),
{
    shared.slab.contains(key)
}

/// `Slab::remove` removes the value under a key, or has it removed by the
/// thread that uses it, and says whether there was one. A freed slot, removed
/// under the key that it gets next, would be listed as free twice, so a key that
/// the slab does not hold is left out. If other threads have the slab too,
/// nothing is claimed: that depends on what they do.
#[verifier::external_body]
fn remove(shared: &mut SharedSlab, key: usize) -> (r: bool)
    requires
        slab_alone(*old(shared)) ==> slab_held(*old(shared)).contains_key(key as int),
    ensures
        slab_alone(*old(shared)) ==> r,
        slab_alone(*old(shared)) ==> slab_alone(*final(shared)),
        slab_alone(*old(shared)) ==> slab_held(*final(shared)) == slab_held(
            *old(shared),
        ).remove(key as int),
{
    shared.slab.remove(key)
}

/// Removes the value under a key, if the slab holds one there. The key is looked
/// up first: a slab whose keys are only removed while they are held stays in
/// order.
fn remove_held(shared: &mut SharedSlab, key: usize)
    ensures
        slab_alone(*old(shared)) ==> slab_alone(*final(shared)),
        slab_alone(*old(shared)) ==> slab_held(*final(shared)) == slab_held(
            *old(shared),
        ).remove(key as int),
{
    if contains(shared, key) {
        let _ = remove(shared, key);
    } else {
        assert(slab_alone(*shared) ==> slab_held(*shared) =~= slab_held(*shared).remove(
            key as int,
        ));
    }
}

/// What a [`ShardedSlabPool`] is.
#[verifier::ext_equal]
pub struct ShardedSlabPoolView {
    /// Whether no handle shares the slab.
    pub alone: bool,
    /// The leased buffers by their keys, as long as `alone` holds; then those at
    /// the time when the first handle was given out.
    pub leased: Map<int, Seq<u8>>,
}

/// Buffers in a slab that threads share without a lock.
pub struct ShardedSlabPool {
    inner: SharedSlab,
}

impl View for ShardedSlabPool {
    type V = ShardedSlabPoolView;

    closed spec fn view(&self) -> ShardedSlabPoolView {
        ShardedSlabPoolView { alone: slab_alone(self.inner), leased: slab_held(self.inner) }
    }
}

impl ShardedSlabPool {
    /// The slab behind the pool.
    pub closed spec fn slab(&self) -> SharedSlab {
        self.inner
    }

    /// An empty pool.
    pub fn new() -> (r: Self)
        ensures
            r@.alone,
            r@.leased == Map::<int, Seq<u8>>::empty(),
    {
        Self { inner: new_slab() }
    }

    /// Stores a new buffer of `len` zero bytes and returns its key, or `None`
    /// if the slab has no room for it.
    pub fn lease(&mut self, len: usize) -> (r: Option<usize>)
        ensures
            old(self)@.alone ==> final(self)@.alone,
            old(self)@.alone ==> final(self)@.leased.dom().finite(),
            old(self)@.alone ==> inserted(
                old(self)@.leased,
                final(self)@.leased,
                crate::bench::competitors::vec_baseline::zeros(len as nat),
                r,
            ),
    {
        insert(&mut self.inner, VecBaseline::lease(len))
    }

    /// Drops the buffer under a key. Does nothing if the key is not leased.
    pub fn release(&mut self, key: usize)
        ensures
            old(self)@.alone ==> final(self)@.alone,
            old(self)@.alone ==> final(self)@.leased == old(self)@.leased.remove(key as int),
    {
        remove_held(&mut self.inner, key);
    }

    /// A handle on the same slab, for another thread.
    pub fn handle(&mut self) -> (r: ShardedSlabHandle)
        ensures
            r.slab() == final(self).slab(),
            old(self)@.alone ==> final(self)@.leased == old(self)@.leased,
    {
        ShardedSlabHandle { inner: share(&mut self.inner) }
    }
}

impl Default for ShardedSlabPool {
    fn default() -> (r: Self)
        ensures
            r@.alone,
            r@.leased == Map::<int, Seq<u8>>::empty(),
    {
        Self::new()
    }
}

/// A handle through which another thread gives buffers back.
pub struct ShardedSlabHandle {
    inner: SharedSlab,
}

impl ShardedSlabHandle {
    /// The slab that buffers are given back to.
    pub closed spec fn slab(&self) -> SharedSlab {
        self.inner
    }

    /// Drops the buffer under a key. Does nothing if the key is not leased.
    pub fn release(&mut self, key: usize)
        ensures
            slab_alone(old(self).slab()) ==> {
                &&& slab_alone(final(self).slab())
                &&& slab_held(final(self).slab()) == slab_held(old(self).slab()).remove(key as int)
            },
    {
        remove_held(&mut self.inner, key);
    }
}

/// A buffer that is stored is found under its key, which was free, beside all
/// others. One that is not leaves everything as it was, and only a slab with so
/// many buffers refuses one.
pub proof fn stored_buffers_are_found(
    before: Map<int, Seq<u8>>,
    after: Map<int, Seq<u8>>,
    value: Seq<u8>,
    key: Option<usize>,
)
    requires
        inserted(before, after, value, key),
    ensures
        key matches Some(key) ==> {
            &&& !before.contains_key(key as int)
            &&& after.contains_key(key as int)
            &&& after[key as int] == value
            &&& forall|k: int|
                k != key ==> (#[trigger] after.contains_key(k) <==> before.contains_key(k)) && (
                before.contains_key(k) ==> after[k] == before[k])
        },
        key is None ==> after == before && before.len() >= 2_097_120,
{
}

} // verus!
