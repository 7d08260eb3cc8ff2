//! A stack of used buffers.
use vstd::prelude::*;

use crate::bench::competitors::vec_baseline::VecBaseline;

verus! {

/// What a request for `len` bytes gets when `popped` came off the stack.
pub open spec fn leased(popped: Option<Seq<u8>>, len: nat) -> Seq<u8> {
    match popped {
        Some(buf) => if buf.len() < len {
            buf + crate::bench::competitors::vec_baseline::zeros((len - buf.len()) as nat)
        } else {
            buf
        },
        None => crate::bench::competitors::vec_baseline::zeros(len),
    }
}

/// The buffer for a request for `len` bytes, given what came off the stack.
///
/// A used buffer keeps its bytes and is only ever made longer, with zeros. If
/// there was none, the buffer is new.
pub fn lease_from(popped: Option<Vec<u8>>, len: usize) -> (r: Vec<u8>)
    ensures
        r@ == leased(
            match popped {
                Some(buf) => Some(buf@),
                None => None,
            },
            len as nat,
        ),
        r@.len() >= len,
{
    match popped {
        Some(buf) => {
            let mut buf = buf;
            if buf.len() < len {
                let ghost before = buf@;
                buf.resize(len, 0);
                assert(buf@ =~= before + crate::bench::competitors::vec_baseline::zeros(
                    (len - before.len()) as nat,
                ));
            }
            buf
        },
        None => VecBaseline::lease(len),
    }
}

/// A stack of used buffers: the one that was given back last is leased first.
pub struct CrossbeamPool {
    stack: Vec<Vec<u8>>,
}

impl View for CrossbeamPool {
    type V = Seq<Seq<u8>>;

    /// What the free buffers hold, the top of the stack last.
    closed spec fn view(&self) -> Seq<Seq<u8>> {
        self.stack@.map_values(|buf: Vec<u8>| buf@)
    }
}

impl CrossbeamPool {
    /// An empty stack. Buffers get the size that is asked for when they are
    /// leased.
    pub fn new(_buf_size: usize) -> (r: Self)
        ensures
            r@ == Seq::<Seq<u8>>::empty(),
    {
        let r = Self { stack: Vec::new() };
        assert(r@ =~= Seq::<Seq<u8>>::empty());
        r
    }

    /// A buffer of at least `len` bytes: the top of the stack, or a new one.
    pub fn lease(&mut self, len: usize) -> (r: Vec<u8>)
        ensures
            r@.len() >= len,
            if old(self)@.len() > 0 {
                &&& r@ == leased(Some(old(self)@.last()), len as nat)
                &&& final(self)@ == old(self)@.drop_last()
            } else {
                &&& r@ == leased(None, len as nat)
                &&& final(self)@ == old(self)@
            },
    {
        let popped = self.stack.pop();
        proof {
            if old(self).stack@.len() > 0 {
                assert(self@ =~= old(self)@.drop_last());
            }
        }
        lease_from(popped, len)
    }

    /// Puts a buffer on top of the stack.
    pub fn release(&mut self, buf: Vec<u8>)
        ensures
            final(self)@ == old(self)@.push(buf@),
    {
        self.stack.push(buf);
        assert(self@ =~= old(self)@.push(buf@));
    }
}

/// The buffer that was given back last is leased first, and if it is large
/// enough it comes back as it was.
pub proof fn last_released_is_leased_first(stack: Seq<Seq<u8>>, buf: Seq<u8>, len: nat)
    requires
        len <= buf.len(),
    ensures
        leased(Some(stack.push(buf).last()), len) == buf,
        stack.push(buf).drop_last() == stack,
{
    assert(stack.push(buf).drop_last() =~= stack);
}

/// A leased buffer is as long as was asked for, or longer if a used one was. What
/// a used one holds is kept, and the rest is zero.
pub proof fn used_buffers_only_grow(popped: Option<Seq<u8>>, len: nat)
    ensures
        ({
            let buf = leased(popped, len);
            let kept = match popped {
                Some(old) => old.len(),
                None => 0,
            };
            &&& buf.len() == if kept < len {
                len
            } else {
                kept
            }
            &&& forall|k: int| 0 <= k < kept ==> #[trigger] buf[k] == popped->0[k]
            &&& forall|k: int| kept <= k < buf.len() ==> #[trigger] buf[k] == 0
        }),
{
}

} // verus!
