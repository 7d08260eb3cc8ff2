//! A free list of byte buffers of one size.
use bytes::BytesMut;
use vstd::prelude::*;

verus! {

/// The byte buffer of the `bytes` crate.
#[verifier::external_type_specification]
#[verifier::external_body]
pub struct ExBytesMut(bytes::BytesMut);

/// The bytes that a buffer holds.
pub uninterp spec fn bytes_held(buf: BytesMut) -> Seq<u8>;

/// `BytesMut::zeroed` makes a buffer of `len` zero bytes, as its documentation
/// says. It allocates them, so no more can be asked for than an allocation can
/// have.
pub assume_specification[ bytes::BytesMut::zeroed ](len: usize) -> (r: BytesMut)
    requires
        len <= isize::MAX,
    ensures
        bytes_held(r) == crate::bench::competitors::vec_baseline::zeros(len as nat),
;

/// A free list of buffers of one size. A buffer that is leased while the list is
/// empty is new.
pub struct BytesPool {
    free_list: Vec<BytesMut>,
    buf_size: usize,
}

/// What a [`BytesPool`] is.
#[verifier::ext_equal]
pub struct BytesPoolView {
    /// What the free buffers hold, the next to be leased last.
    pub free: Seq<Seq<u8>>,
    /// The size of new buffers.
    pub size: nat,
}

impl View for BytesPool {
    type V = BytesPoolView;

    closed spec fn view(&self) -> BytesPoolView {
        BytesPoolView {
            free: self.free_list@.map_values(|b: BytesMut| bytes_held(b)),
            size: self.buf_size as nat,
        }
    }
}

impl BytesPool {
    /// A pool with `count` buffers of `buf_size` zero bytes.
    pub fn new(count: usize, buf_size: usize) -> (r: Self)
        requires
            buf_size <= isize::MAX,
        ensures
            r@.size == buf_size,
            r@.free == Seq::new(
                count as nat,
                |i: int| crate::bench::competitors::vec_baseline::zeros(buf_size as nat),
            ),
    {
        let mut free_list: Vec<BytesMut> = Vec::with_capacity(count);
        let mut i: usize = 0;
        while i < count
            invariant
                buf_size <= isize::MAX,
                i <= count,
                free_list@.len() == i,
                forall|j: int|
                    0 <= j < i ==> bytes_held(#[trigger] free_list@[j])
                        == crate::bench::competitors::vec_baseline::zeros(buf_size as nat),
            decreases count - i,
        {
            free_list.push(BytesMut::zeroed(buf_size));
            i = i + 1;
        }
        let r = Self { free_list, buf_size };
        assert(r@.free =~= Seq::new(
            count as nat,
            |i: int| crate::bench::competitors::vec_baseline::zeros(buf_size as nat),
        ));
        r
    }

    /// The buffer that was given back last, or a new one if none is free.
    pub fn lease(&mut self) -> (r: BytesMut)
        requires
            old(self)@.size <= isize::MAX,
        ensures
            if old(self)@.free.len() > 0 {
                &&& bytes_held(r) == old(self)@.free.last()
                &&& final(self)@ == (BytesPoolView {
                    free: old(self)@.free.drop_last(),
                    ..old(self)@
                })
            } else {
                &&& bytes_held(r) == crate::bench::competitors::vec_baseline::zeros(
                    old(self)@.size,
                )
                &&& final(self)@ == old(self)@
            },
    {
        match self.free_list.pop() {
            Some(buf) => {
                assert(self@.free =~= old(self)@.free.drop_last());
                buf
            },
            None => BytesMut::zeroed(self.buf_size),
        }
    }

    /// Gives a buffer back, whatever it holds by now.
    pub fn release(&mut self, buf: BytesMut)
        ensures
            final(self)@ == (BytesPoolView {
                free: old(self)@.free.push(bytes_held(buf)),
                ..old(self)@
            }),
    {
        self.free_list.push(buf);
        assert(self@.free =~= old(self)@.free.push(bytes_held(buf)));
    }
}

/// A pool hands out the very bytes that were given back last.
pub proof fn lease_returns_what_was_released(pool: BytesPoolView, buf: Seq<u8>)
    ensures
        ({
            let given = BytesPoolView { free: pool.free.push(buf), ..pool };
            &&& given.free.last() == buf
            &&& given.free.drop_last() == pool.free
        }),
{
    assert(pool.free.push(buf).drop_last() =~= pool.free);
}

} // verus!
