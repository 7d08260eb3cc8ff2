//! A bounded ring between one producer and one consumer.
use vstd::prelude::*;

verus! {

/// How many items the ring holds.
pub const RING_SIZE: usize = 64;

/// The bits of a position that say where in the ring it is.
pub const RING_MASK: usize = 63;

/// Where in the ring a position is.
pub open spec fn slot_of(position: usize) -> int {
    position as int % 64
}

/// How many items are between the two positions. Positions count all items ever
/// moved, and wrap around.
pub open spec fn in_flight(head: usize, tail: usize) -> usize {
    tail.wrapping_sub(head)
}

/// What a producer does next.
#[derive(Debug, Clone, Copy, PartialEq, Eq, Structural)]
pub enum PushStep {
    /// Write the item to this slot and move on.
    Write(usize),
    /// The ring is full: look again.
    Wait,
    /// The ring is full and closed: give up.
    Refused,
}

/// What a consumer does next.
#[derive(Debug, Clone, Copy, PartialEq, Eq, Structural)]
pub enum PopStep {
    /// Take the item out of this slot and move on.
    Take(usize),
    /// The ring is empty: look again.
    Wait,
    /// The ring looked empty before it was found closed: see whether an item
    /// was pushed in between.
    LookAgain,
}

/// The slot at a position.
pub fn slot(position: usize) -> (r: usize)
    ensures
        r == slot_of(position),
        r < RING_SIZE,
{
    assert(position & 63 == position % 64) by (bit_vector);
    position & RING_MASK
}

/// What a producer at `tail` does, having seen the consumer at `head`.
pub fn push_step(tail: usize, head: usize, closed: bool) -> (r: PushStep)
    ensures
        r == if in_flight(head, tail) < RING_SIZE {
            PushStep::Write(slot_of(tail) as usize)
        } else if closed {
            PushStep::Refused
        } else {
            PushStep::Wait
        },
{
    if tail.wrapping_sub(head) < RING_SIZE {
        PushStep::Write(slot(tail))
    } else if closed {
        PushStep::Refused
    } else {
        PushStep::Wait
    }
}

/// What a consumer at `head` does, having seen the producer at `tail` and then
/// whether the ring is closed.
pub fn pop_step(head: usize, tail: usize, closed: bool) -> (r: PopStep)
    ensures
        r == if tail != head {
            PopStep::Take(slot_of(head) as usize)
        } else if closed {
            PopStep::LookAgain
        } else {
            PopStep::Wait
        },
{
    if tail != head {
        PopStep::Take(slot(head))
    } else if closed {
        PopStep::LookAgain
    } else {
        PopStep::Wait
    }
}

/// The slot that a consumer at `head` takes from a closed ring, having seen
/// the producer at its last position; `None` if there is nothing more to come.
pub fn last_pop_step(head: usize, final_tail: usize) -> (r: Option<usize>)
    ensures
        r == if final_tail != head {
            Some(slot_of(head) as usize)
        } else {
            None
        },
{
    if final_tail != head {
        Some(slot(head))
    } else {
        None
    }
}

/// The next position is in the next slot, also where positions wrap around.
pub proof fn next_slot(position: usize)
    ensures
        slot_of(position.wrapping_add(1)) == (slot_of(position) + 1) % 64,
{
    assert(usize::MAX == 0xffff_ffff || usize::MAX == 0xffff_ffff_ffff_ffff);
}

/// What became of an item that was offered to the ring.
#[derive(Debug)]
pub enum Offered<T> {
    Accepted,
    /// The ring is full; here is the item back.
    Full(T),
    /// The ring is full and closed; here is the item back.
    Refused(T),
}

/// What the ring had to give.
#[derive(Debug)]
pub enum Polled<T> {
    Item(T),
    Empty,
    /// The ring is empty and closed.
    Finished,
}

/// What a ring is: its items in the order in which they were pushed, and
/// whether it is closed.
#[verifier::ext_equal]
pub struct RingView<T> {
    pub items: Seq<T>,
    pub closed: bool,
}

/// A ring that one side fills and the other empties, on one thread.
pub struct SpscRing<T> {
    buf: Vec<Option<T>>,
    head: usize,
    tail: usize,
    closed: bool,
}

impl<T> View for SpscRing<T> {
    type V = RingView<T>;

    closed spec fn view(&self) -> RingView<T> {
        RingView {
            items: Seq::new(
                in_flight(self.head, self.tail) as nat,
                |k: int| self.buf@[(slot_of(self.head) + k) % 64]->0,
            ),
            closed: self.closed,
        }
    }
}

impl<T> SpscRing<T> {
    /// There are no more items than slots, and exactly the slots between the
    /// two positions hold one.
    pub closed spec fn wf(&self) -> bool {
        let n = in_flight(self.head, self.tail) as int;
        &&& self.buf@.len() == 64
        &&& n <= 64
        &&& slot_of(self.tail) == (slot_of(self.head) + n) % 64
        &&& forall|k: int|
            0 <= k < 64 ==> (#[trigger] self.buf@[(slot_of(self.head) + k) % 64] is Some <==> k
                < n)
    }

    /// An empty ring.
    pub fn new() -> (r: Self)
        ensures
            r.wf(),
            r@ == (RingView { items: Seq::<T>::empty(), closed: false }),
    {
        let mut buf: Vec<Option<T>> = Vec::with_capacity(RING_SIZE);
        let mut i: usize = 0;
        while i < RING_SIZE
            invariant
                i <= RING_SIZE,
                buf@.len() == i,
                forall|k: int| 0 <= k < i ==> #[trigger] buf@[k] is None,
            decreases RING_SIZE - i,
        {
            buf.push(None);
            i = i + 1;
        }
        let r = Self { buf, head: 0, tail: 0, closed: false };
        assert(r@.items =~= Seq::<T>::empty());
        r
    }

    /// Push an item, if there is room.
    pub fn push(&mut self, val: T) -> (r: Offered<T>)
        requires
            old(self).wf(),
        ensures
            final(self).wf(),
            if old(self)@.items.len() < RING_SIZE {
                &&& r == Offered::<T>::Accepted
                &&& final(self)@ == (RingView {
                    items: old(self)@.items.push(val),
                    ..old(self)@
                })
            } else {
                &&& final(self)@ == old(self)@
                &&& r == if old(self)@.closed {
                    Offered::Refused(val)
                } else {
                    Offered::Full(val)
                }
            },
    {
        let ghost n = in_flight(self.head, self.tail) as int;
        let ghost h = slot_of(self.head);
        let ghost before = self.buf@;
        match push_step(self.tail, self.head, self.closed) {
            PushStep::Write(at) => {
                self.buf[at] = Some(val);
                proof {
                    next_slot(self.tail);
                    assert(at == (h + n) % 64);
                }
                self.tail = self.tail.wrapping_add(1);
                proof {
                    assert(in_flight(self.head, self.tail) == n + 1);
                    assert forall|k: int| 0 <= k < 64 implies (#[trigger] self.buf@[(h + k) % 64]
                        is Some <==> k < n + 1) by {
                        assert(before[(h + k) % 64] is Some <==> k < n);
                        if k != n {
                            assert((h + k) % 64 != at);
                        }
                    }
                    assert forall|k: int| 0 <= k < n implies self@.items[k] == old(
                        self,
                    )@.items[k] by {
                        assert((h + k) % 64 != at);
                    }
                    assert(self@.items =~= old(self)@.items.push(val));
                }
                Offered::Accepted
            },
            PushStep::Wait => Offered::Full(val),
            PushStep::Refused => Offered::Refused(val),
        }
    }

    /// Pop the item that was pushed first.
    pub fn pop(&mut self) -> (r: Polled<T>)
        requires
            old(self).wf(),
        ensures
            final(self).wf(),
            if old(self)@.items.len() > 0 {
                &&& r == Polled::Item(old(self)@.items[0])
                &&& final(self)@ == (RingView {
                    items: old(self)@.items.drop_first(),
                    ..old(self)@
                })
            } else {
                &&& final(self)@ == old(self)@
                &&& r == if old(self)@.closed {
                    Polled::<T>::Finished
                } else {
                    Polled::Empty
                }
            },
    {
        let ghost n = in_flight(self.head, self.tail) as int;
        let ghost h = slot_of(self.head);
        let ghost before = self.buf@;
        match pop_step(self.head, self.tail, self.closed) {
            PopStep::Take(at) => {
                proof {
                    assert(before[(h + 0) % 64] is Some);
                    next_slot(self.head);
                }
                let taken = self.buf[at].take();
                self.head = self.head.wrapping_add(1);
                proof {
                    let g = slot_of(self.head);
                    assert(in_flight(self.head, self.tail) == n - 1);
                    assert(g == (h + 1) % 64);
                    assert forall|k: int| 0 <= k < 64 implies (#[trigger] self.buf@[(g + k) % 64]
                        is Some <==> k < n - 1) by {
                        if k < 63 {
                            assert((g + k) % 64 == (h + (k + 1)) % 64);
                            assert(before[(h + (k + 1)) % 64] is Some <==> k + 1 < n);
                        } else {
                            assert((g + k) % 64 == at);
                        }
                    }
                    assert forall|k: int| 0 <= k < n - 1 implies self@.items[k] == old(
                        self,
                    )@.items[k + 1] by {
                        assert((g + k) % 64 == (h + (k + 1)) % 64);
                    }
                    assert(self@.items =~= old(self)@.items.drop_first());
                }
                match taken {
                    Some(val) => Polled::Item(val),
                    None => Polled::Empty,
                }
            },
            PopStep::LookAgain => Polled::Finished,
            PopStep::Wait => Polled::Empty,
        }
    }

    /// Close the ring: what is in it can still be popped.
    pub fn close(&mut self)
        requires
            old(self).wf(),
        ensures
            final(self).wf(),
            final(self)@ == (RingView { closed: true, ..old(self)@ }),
    {
        self.closed = true;
        assert(self@.items =~= old(self)@.items);
    }
}

/// Different items of a ring are in different slots.
pub proof fn items_have_slots_of_their_own(head: usize, j: int, k: int)
    requires
        0 <= j < k < 64,
    ensures
        (slot_of(head) + j) % 64 != (slot_of(head) + k) % 64,
{
}

/// The producer's position is ahead of the consumer's by the number of items in
/// between, also where positions wrap around, and the ring has 64 slots.
pub proof fn positions_measure_items(head: usize, n: usize)
    ensures
        in_flight(head, head.wrapping_add(n)) == n,
        0 <= slot_of(head) < 64,
        head < usize::MAX && slot_of(head) < 63 ==> slot_of((head + 1) as usize) == slot_of(head)
            + 1,
        RING_SIZE == 64,
        slot_of(0) == 0,
{
}

} // verus!
