//! A sequential ring buffer: a write overwrites the oldest slot once the ring
//! is full, and an iterator walks what is held, oldest first.

use crate::window::keep_last;
use crate::window::lemma_mod_round;
use crate::window::lemma_mod_succ;
use vstd::arithmetic::div_mod::lemma_small_mod;
use vstd::prelude::*;

verus! {

/// A ring of `capacity()` slots and the count of values ever written to it.
pub struct CircularBuffer<T: Copy> {
    seqno: usize,
    data: Vec<T>,
}

/// A one-shot walk over the values that a ring held when the walk was made.
pub struct CircularBufferIterator<'a, T: Copy> {
    slice: &'a [T],
    start: usize,
    end: usize,
    pos: usize,
    wrap: bool,
}

impl<T: Copy> CircularBuffer<T> {
    /// A ring has at least one slot.
    pub closed spec fn wf(&self) -> bool {
        self.data@.len() >= 1
    }

    /// The number of slots.
    pub closed spec fn capacity(&self) -> nat {
        self.data@.len()
    }

    /// The number of values written so far.
    pub closed spec fn seqno(&self) -> nat {
        self.seqno as nat
    }

    /// The slots as they lie in memory.
    pub closed spec fn slots(&self) -> Seq<T> {
        self.data@
    }

    /// The slot that the next write goes to.
    pub open spec fn next_slot(&self) -> int {
        (self.seqno() % self.capacity()) as int
    }

    /// The sequence number of the oldest value that may still be held.
    pub open spec fn oldest(&self) -> nat {
        if self.seqno() < self.capacity() {
            0
        } else {
            (self.seqno() - self.capacity()) as nat
        }
    }

    /// The values held, oldest first.
    pub open spec fn contents(&self) -> Seq<T> {
        if self.seqno() < self.capacity() {
            self.slots().subrange(0, self.seqno() as int)
        } else {
            self.slots().subrange(self.next_slot(), self.capacity() as int) + self.slots().subrange(
                0,
                self.next_slot(),
            )
        }
    }

    /// A ring of `size` slots, each holding `default_value`, with nothing
    /// written to it yet.
    pub fn new(size: usize, default_value: T) -> (ret: CircularBuffer<T>)
        requires
            size >= 1,
        ensures
            ret.wf(),
            ret.capacity() == size,
            ret.seqno() == 0,
            ret.slots() == Seq::new(size as nat, |i: int| default_value),
            ret.contents() == Seq::<T>::empty(),
    {
        let mut ret = CircularBuffer { seqno: 0, data: Vec::new() };
        let mut i: usize = 0;
        while i < size
            invariant
                i <= size,
                ret.seqno == 0,
                ret.data@ == Seq::new(i as nat, |j: int| default_value),
            decreases size - i,
        {
            ret.data.push(default_value);
            i += 1;
            assert(ret.data@ =~= Seq::new(i as nat, |j: int| default_value));
        }
        assert(ret.contents() =~= Seq::<T>::empty());
        ret
    }

    /// The sequence number of the oldest value that may still be held.
    pub fn min_pos(&self) -> (r: usize)
        ensures
            r == self.oldest(),
    {
        if self.seqno < self.data.len() {
            0
        } else {
            self.seqno - self.data.len()
        }
    }

    /// A walk over the values held, oldest first.
    pub fn iter(&self) -> (it: CircularBufferIterator<'_, T>)
        requires
            self.wf(),
        ensures
            it.wf(),
            it.remaining() == self.contents(),
    {
        let min = self.min_pos();
        let max = self.seqno;
        let sz = self.data.len();

        let min_pos = min % sz;
        let max_pos = max % sz;
        proof {
            if max < sz {
                lemma_small_mod(max as nat, sz as nat);
                lemma_small_mod(0, sz as nat);
            } else {
                lemma_mod_round(max as int, sz as int);
            }
        }

        if self.seqno == 0 {
            let it = CircularBufferIterator {
                slice: self.data.as_slice(),
                start: 0,
                end: 0,
                pos: 1,
                wrap: false,
            };
            assert(it.remaining() =~= self.contents());
            it
        } else if min_pos < max_pos {
            let it = CircularBufferIterator {
                slice: self.data.as_slice(),
                start: min_pos,
                end: max_pos,
                pos: min_pos,
                wrap: false,
            };
            assert(it.remaining() =~= self.contents());
            it
        } else {
            let it = CircularBufferIterator {
                slice: self.data.as_slice(),
                start: max_pos,
                end: sz,
                pos: max_pos,
                wrap: (max_pos != 0),
            };
            assert(it.remaining() =~= self.contents());
            it
        }
    }

    /// Writes one value: `setter` is given what the next slot holds and
    /// returns what it shall hold. Returns the new sequence number.
    pub fn put<F: FnOnce(T) -> T>(&mut self, setter: F) -> (seq: usize)
        requires
            old(self).wf(),
            old(self).seqno() < usize::MAX,
            setter.requires((old(self).slots()[old(self).next_slot()],)),
        ensures
            final(self).wf(),
            final(self).capacity() == old(self).capacity(),
            final(self).seqno() == old(self).seqno() + 1,
            seq == final(self).seqno(),
            setter.ensures(
                (old(self).slots()[old(self).next_slot()],),
                final(self).slots()[old(self).next_slot()],
            ),
            final(self).slots() == old(self).slots().update(
                old(self).next_slot(),
                final(self).slots()[old(self).next_slot()],
            ),
            final(self).contents() == keep_last(
                old(self).contents().push(final(self).slots()[old(self).next_slot()]),
                old(self).capacity(),
            ),
    {
        let pos = self.seqno % self.data.len();
        let v = setter(self.data[pos]);
        self.data[pos] = v;
        proof {
            lemma_mod_succ(self.seqno as int, self.data@.len() as int);
            if self.seqno < self.data@.len() {
                lemma_small_mod(self.seqno as nat, self.data@.len());
            }
        }
        self.seqno += 1;
        assert(self.contents() =~= keep_last(old(self).contents().push(v), old(self).capacity()));
        self.seqno
    }
}

impl<'a, T: Copy> CircularBufferIterator<'a, T> {
    /// The walk's cursor and bounds lie within the slots it walks.
    pub closed spec fn wf(&self) -> bool {
        &&& self.end <= self.slice@.len()
        &&& self.wrap ==> 1 <= self.start <= self.slice@.len()
    }

    /// The values that the walk has yet to yield, in the order in which it
    /// will yield them.
    pub closed spec fn remaining(&self) -> Seq<T> {
        let ahead = if self.pos < self.end {
            self.slice@.subrange(self.pos as int, self.end as int)
        } else {
            Seq::<T>::empty()
        };
        let wrapped = if self.wrap {
            self.slice@.subrange(0, self.start as int)
        } else {
            Seq::<T>::empty()
        };
        ahead + wrapped
    }

    /// Yields the next value, or `None` once the walk is over.
    pub fn next(&mut self) -> (r: Option<T>)
        requires
            old(self).wf(),
        ensures
            final(self).wf(),
            old(self).remaining().len() == 0 ==> r.is_none() && final(self).remaining()
                == old(self).remaining(),
            old(self).remaining().len() > 0 ==> r == Some(old(self).remaining()[0])
                && final(self).remaining() == old(self).remaining().skip(1),
    {
        if self.pos >= self.end {
            if self.wrap {
                self.pos = 1;
                self.end = self.start;
                self.wrap = false;
                assert(self.remaining() =~= old(self).remaining().skip(1));
                Some(self.slice[0])
            } else {
                None
            }
        } else {
            let at = self.pos;
            self.pos += 1;
            assert(self.remaining() =~= old(self).remaining().skip(1));
            Some(self.slice[at])
        }
    }
}

} // verus!
