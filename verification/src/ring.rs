//! Fixed-capacity circular FIFO queue used for the wire-word and
//! file-descriptor staging buffers.
//!
//! The capacity is a power of two so that indices can be reduced with a
//! mask instead of a modulo; at most `capacity - 1` items are held, since a
//! completely full buffer would be indistinguishable from an empty one.
use vstd::prelude::*;

verus! {

/// True when `c` is a power of two (and hence a usable ring capacity).
pub open spec fn is_power_of_two(c: usize) -> bool {
    c >= 1 && (c & ((c - 1) as usize)) == 0
}

/// A power of two and its mask occupy disjoint bits, so their sum is a
/// machine integer as well: the capacity is at most half the integer range.
proof fn lemma_pow2_half(c: usize, m: usize)
    by (bit_vector)
    requires
        c > 0,
        m == c - 1,
        c & m == 0,
    ensures
        c | m == c + m,
{
}

/// Masking with `c - 1` wraps an index below `2 * c` back into the ring.
proof fn lemma_mask_wraps(x: usize, c: usize, m: usize)
    by (bit_vector)
    requires
        c > 0,
        m == c - 1,
        c & m == 0,
        x < c + c,
    ensures
        x >= c ==> (x & m) + c == x,
        x < c ==> x & m == x,
{
}

/// A circular buffer suitable as a FIFO queue.
///
/// The view of the buffer is the sequence of queued items, oldest first.
pub struct RingBuffer<T> {
    data: Vec<Option<T>>,
    front: usize,
    back: usize,
}

impl<T> RingBuffer<T> {
    /// Maximum number of slots; one is always kept empty.
    pub closed spec fn spec_capacity(&self) -> nat {
        self.data@.len()
    }

    /// Linear slot that holds the `i`-th queued item.
    closed spec fn slot_of(&self, i: int) -> int {
        if self.back + i < self.spec_capacity() {
            self.back + i
        } else {
            self.back + i - self.spec_capacity()
        }
    }

    /// Whether linear slot `s` lies in the occupied region between the
    /// read head and the write head.
    closed spec fn live_slot(&self, s: int) -> bool {
        if self.front >= self.back {
            self.back <= s < self.front
        } else {
            s < self.front || self.back <= s < self.spec_capacity()
        }
    }

    closed spec fn spec_len(&self) -> nat {
        if self.front >= self.back {
            (self.front - self.back) as nat
        } else {
            (self.front + self.spec_capacity() - self.back) as nat
        }
    }

    pub closed spec fn well_formed(&self) -> bool {
        &&& is_power_of_two(self.data@.len() as usize)
        &&& self.front < self.data@.len()
        &&& self.back < self.data@.len()
        &&& forall|s: int|
            0 <= s < self.data@.len() && self.live_slot(s) ==> (#[trigger] self.data@[s]) is Some
    }


    pub closed spec fn view(&self) -> Seq<T> {
        Seq::new(self.spec_len(), |i: int| self.data@[self.slot_of(i)]->Some_0)
    }

    /// Create a new `RingBuffer` with the given capacity, which must be a
    /// power of two. It holds at most `capacity - 1` items.
    pub fn new(capacity: usize) -> (r: Self)
        requires
            is_power_of_two(capacity),
        ensures
            r.well_formed(),
            r@ == Seq::<T>::empty(),
            r.spec_capacity() == capacity,
    {
        let mut data: Vec<Option<T>> = Vec::new();
        let mut i: usize = 0;
        while i < capacity
            invariant
                i <= capacity,
                data@.len() == i,
            decreases capacity - i,
        {
            data.push(None);
            i = i + 1;
        }
        let r = RingBuffer { data, front: 0, back: 0 };
        proof {
            assert(r@ =~= Seq::<T>::empty());
        }
        r
    }

    /// Advance a ring index by one, wrapping at the capacity.
    fn increment(&self, value: usize) -> (r: usize)
        requires
            self.well_formed(),
            value < self.spec_capacity(),
        ensures
            value + 1 < self.spec_capacity() ==> r == value + 1,
            value + 1 == self.spec_capacity() ==> r == 0,
            r < self.spec_capacity(),
    {
        let c = self.data.len();
        let m = c - 1;
        let r = (value + 1) & m;
        proof {
            lemma_mask_wraps((value + 1) as usize, c, m);
        }
        r
    }

    /// Number of items currently queued.
    pub fn len(&self) -> (r: usize)
        requires
            self.well_formed(),
        ensures
            r == self@.len(),
    {
        let c = self.data.len();
        proof {
            lemma_pow2_half(c, (c - 1) as usize);
        }
        if self.front < self.back {
            (self.front + c) - self.back
        } else {
            self.front - self.back
        }
    }

    /// Number of unused slots: the capacity minus the length. One slot
    /// is always kept empty to tell a full buffer from an empty one, so
    /// `free() - 1` further items can be inserted.
    pub fn free(&self) -> (r: usize)
        requires
            self.well_formed(),
        ensures
            r == self.spec_capacity() - self@.len(),
            r >= 1,
    {
        self.capacity() - self.len()
    }

    /// Total number of slots in the buffer.
    pub fn capacity(&self) -> (r: usize)
        requires
            self.well_formed(),
        ensures
            r == self.spec_capacity(),
    {
        self.data.len()
    }

    /// True when no items are queued.
    pub fn is_empty(&self) -> (r: bool)
        requires
            self.well_formed(),
        ensures
            r == (self@.len() == 0),
    {
        self.front == self.back
    }

    /// True when no more items can be inserted.
    pub fn is_full(&self) -> (r: bool)
        requires
            self.well_formed(),
        ensures
            r == (self@.len() == self.spec_capacity() - 1),
    {
        self.len() == self.capacity() - 1
    }

    /// Index of the write head within the underlying storage.
    pub fn front(&self) -> (r: usize)
        ensures
            r == self.spec_front(),
    {
        self.front
    }

    /// Index of the read head within the underlying storage.
    pub fn back(&self) -> (r: usize)
        ensures
            r == self.spec_back(),
    {
        self.back
    }

    pub closed spec fn spec_front(&self) -> usize {
        self.front
    }

    pub closed spec fn spec_back(&self) -> usize {
        self.back
    }

    /// Insert an element into the `RingBuffer`, or return it back if there
    /// is no space.
    pub fn push(&mut self, value: T) -> (r: Option<T>)
        requires
            old(self).well_formed(),
        ensures
            final(self).well_formed(),
            final(self).spec_capacity() == old(self).spec_capacity(),
            old(self)@.len() == old(self).spec_capacity() - 1 ==> r == Some(value)
                && final(self)@ == old(self)@,
            old(self)@.len() < old(self).spec_capacity() - 1 ==> r is None
                && final(self)@ == old(self)@.push(value),
    {
        let next = self.increment(self.front);
        if next == self.back {
            Some(value)
        } else {
            let old_front = self.front;
            self.data[old_front] = Some(value);
            self.front = next;
            proof {
                assert(self.spec_len() == old(self).spec_len() + 1);
                assert forall|i: int|
                    0 <= i < self.spec_len() implies (#[trigger] self.data@[self.slot_of(
                    i,
                )]) is Some by {
                    if i < old(self).spec_len() {
                        assert(old(self).data@[old(self).slot_of(i)] is Some);
                        assert(self.slot_of(i) == old(self).slot_of(i));
                    } else {
                        assert(self.slot_of(i) == old_front);
                    }
                }
                assert(self@ =~= old(self)@.push(value));
            }
            None
        }
    }

    /// Remove the oldest item from the `RingBuffer` and return it.
    pub fn pop(&mut self) -> (r: Option<T>)
        requires
            old(self).well_formed(),
        ensures
            final(self).well_formed(),
            final(self).spec_capacity() == old(self).spec_capacity(),
            old(self)@.len() == 0 ==> r is None && final(self)@ == old(self)@,
            old(self)@.len() > 0 ==> r == Some(old(self)@[0])
                && final(self)@ == old(self)@.subrange(1, old(self)@.len() as int),
    {
        if self.front == self.back {
            None
        } else {
            let index = self.back;
            self.back = self.increment(self.back);
            let r = self.data[index].take();
            proof {
                assert(self.spec_len() == old(self).spec_len() - 1);
                assert forall|i: int|
                    0 <= i < self.spec_len() implies (#[trigger] self.data@[self.slot_of(
                    i,
                )]) is Some by {
                    assert(old(self).data@[old(self).slot_of(i + 1)] is Some);
                    assert(self.slot_of(i) == old(self).slot_of(i + 1));
                }
                assert(old(self).data@[old(self).slot_of(0)] is Some);
                assert(old(self)@[0] == r->Some_0);
                assert(self@ =~= old(self)@.subrange(1, old(self)@.len() as int));
            }
            Some(r.unwrap())
        }
    }

    /// Remove all items from the `RingBuffer`.
    pub fn clear(&mut self)
        requires
            old(self).well_formed(),
        ensures
            final(self).well_formed(),
            final(self).spec_capacity() == old(self).spec_capacity(),
            final(self)@ == Seq::<T>::empty(),
    {
        loop
            invariant
                self.well_formed(),
                self.spec_capacity() == old(self).spec_capacity(),
            ensures
                self.well_formed(),
                self.spec_capacity() == old(self).spec_capacity(),
                self@.len() == 0,
            decreases self@.len(),
        {
            if self.pop().is_none() {
                break ;
            }
        }
        proof {
            assert(self@ =~= Seq::<T>::empty());
        }
    }

    /// Get a mutable reference to the item by index, where 0 is the
    /// oldest item, which must be within the queue.
    pub fn get_mut(&mut self, index: usize) -> (r: &mut T)
        requires
            old(self).well_formed(),
            index < old(self)@.len(),
        ensures
            *r == old(self)@[index as int],
            final(self).well_formed(),
            final(self).spec_capacity() == old(self).spec_capacity(),
            final(self)@.len() == old(self)@.len(),
            final(self)@[index as int] == *final(r),
            forall|j: int|
                0 <= j < old(self)@.len() && j != index ==> final(self)@[j] == old(self)@[j],
    {
        let c = self.data.len();
        let m = c - 1;
        proof {
            lemma_pow2_half(c, (c - 1) as usize);
        }
        let i = (self.back + index) & m;
        proof {
            lemma_mask_wraps((self.back + index) as usize, c, m);
            assert(i == self.slot_of(index as int));
            assert(self.data@[i as int] is Some);
        }
        self.data[i].as_mut().unwrap()
    }

    /// Get a reference to the item by index, where 0 is the oldest item.
    pub fn get(&self, index: usize) -> (r: Option<&T>)
        requires
            self.well_formed(),
        ensures
            index < self@.len() ==> r is Some && *r->Some_0 == self@[index as int],
            index >= self@.len() ==> r is None,
    {
        if index < self.len() {
            let c = self.data.len();
            let m = c - 1;
            proof {
                lemma_pow2_half(c, (c - 1) as usize);
            }
            let i = (self.back + index) & m;
            proof {
                lemma_mask_wraps((self.back + index) as usize, c, m);
                assert(i == self.slot_of(index as int));
            }
            Some(self.data[i].as_ref().unwrap())
        } else {
            None
        }
    }
}

/// Law: a buffer filled with a sequence and then drained dequeues that
/// same sequence. `push` appends to the view and `pop` yields its
/// head, so after `k` dequeues of a queue holding `xs` the next
/// dequeue yields `xs[k]` and leaves the elements after it.
pub proof fn lemma_fifo_order<T>(xs: Seq<T>, k: int)
    requires
        0 <= k < xs.len(),
    ensures
        xs.skip(k)[0] == xs[k],
        xs.skip(k).subrange(1, xs.skip(k).len() as int) == xs.skip(k + 1),
{
    assert(xs.skip(k).subrange(1, xs.skip(k).len() as int) =~= xs.skip(k + 1));
}

} // verus!
