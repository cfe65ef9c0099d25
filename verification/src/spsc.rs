//! A lossy ring whose cells change hands through atomic descriptor words.
//!
//! The ring owns an arena of `2 * capacity + 1` cells. At any time one cell is
//! the writer's spare, `capacity` cells are published, one per position of the
//! ring, and `capacity` cells are the reader's stock. A write fills the spare
//! and exchanges it for the cell published at the next position; a drain
//! exchanges cells of the reader's stock for the newest published ones.
//!
//! A descriptor word holds the index of the cell published at its position
//! and, below it, a tag: the low sixteen bits of the sequence number of the
//! write that put the cell there.
//!
//! Every operation takes the ring by exclusive reference, so each descriptor
//! holds one definite word throughout a call.

use crate::atomics::atomic_compare_and_swap;
use crate::atomics::atomic_fetch_add;
use crate::atomics::atomic_load;
use crate::atomics::atomic_new;
use crate::atomics::atomic_value;
use crate::partition::exchanged;
use crate::partition::lemma_exchange_keeps_partition;
use crate::partition::lemma_partition_covers;
use crate::partition::partitioned;
use crate::window::keep_last;
use crate::window::lemma_mod_distinct;
use crate::window::lemma_mod_mirror;
use std::sync::atomic::AtomicUsize;
use vstd::arithmetic::div_mod::lemma_mod_bound;
use vstd::arithmetic::div_mod::lemma_small_mod;
use vstd::prelude::*;

verus! {

/// The number of tags: a descriptor word is a cell index times this, plus a tag.
pub const TAG_SPAN: usize = 65536;

/// The cell that a descriptor word points to.
pub open spec fn cell_of(word: usize) -> int {
    (word / TAG_SPAN) as int
}

/// The tag that a descriptor word carries.
pub open spec fn tag_of(word: usize) -> int {
    (word % TAG_SPAN) as int
}

/// Counting back from the newest of `seqno` writes on a ring of `n`
/// positions: the position written to `x` writes back and, the other way
/// round, how many writes back position `x` was due. One formula serves both.
pub open spec fn steps_back(seqno: int, x: int, n: int) -> int {
    (seqno - 1 - x) % n
}

/// The ring: arena, descriptors, and each side's own cells.
pub struct CircularBuffer<T: Copy> {
    /// Count of values ever written.
    seqno: AtomicUsize,
    /// The arena.
    data: Vec<T>,
    /// The capacity.
    size: usize,
    /// One descriptor word per position of the ring.
    write_to: Vec<AtomicUsize>,
    /// The reader's stock of cells.
    read_from: Vec<usize>,
    /// The writer's spare cell.
    write_tmp: usize,
}

/// Who holds which cell, and the tag at each position of the ring.
pub struct Layout {
    /// The writer's spare cell.
    pub spare: usize,
    /// The cell published at each position.
    pub published: Vec<usize>,
    /// The tag that the descriptor of each position carries.
    pub tags: Vec<usize>,
    /// The cells of the reader's stock.
    pub recovered: Vec<usize>,
}

/// What one drain claimed: a one-shot walk, oldest value first.
pub struct CircularBufferIterator<'a, T: Copy> {
    data: &'a [T],
    revpos: &'a [usize],
    count: usize,
}

impl<T: Copy> CircularBuffer<T> {
    /// The number of positions of the ring.
    pub closed spec fn capacity(&self) -> nat {
        self.size as nat
    }

    /// The number of values written so far.
    pub closed spec fn seqno(&self) -> nat {
        atomic_value(self.seqno) as nat
    }

    /// What each cell of the arena holds.
    pub closed spec fn arena(&self) -> Seq<T> {
        self.data@
    }

    /// The writer's spare cell.
    pub closed spec fn spare(&self) -> int {
        self.write_tmp as int
    }

    /// The cell published at each position of the ring.
    pub closed spec fn published(&self) -> Seq<int> {
        Seq::new(self.write_to@.len(), |p: int| cell_of(atomic_value(self.write_to@[p])))
    }

    /// The tag that the descriptor of each position carries.
    pub closed spec fn tags(&self) -> Seq<int> {
        Seq::new(self.write_to@.len(), |p: int| tag_of(atomic_value(self.write_to@[p])))
    }

    /// The cells of the reader's stock.
    pub closed spec fn recovered(&self) -> Seq<int> {
        Seq::new(self.read_from@.len(), |j: int| self.read_from@[j] as int)
    }

    /// Every cell index leaves room for a tag in a machine word.
    pub closed spec fn fits(&self) -> bool {
        (2 * self.size + 1) * TAG_SPAN <= usize::MAX
    }

    /// The cells by holder: the spare, then the published cells by position,
    /// then the reader's stock.
    pub open spec fn owners(&self) -> Seq<int> {
        Seq::new(
            2 * self.capacity() + 1,
            |k: int|
                if k == 0 {
                    self.spare()
                } else if k <= self.capacity() {
                    self.published()[k - 1]
                } else {
                    self.recovered()[k - 1 - self.capacity()]
                },
        )
    }

    /// The ring's invariant: the sizes agree, and the spare, the published
    /// cells and the reader's stock partition the arena.
    pub open spec fn wf(&self) -> bool {
        &&& self.capacity() >= 1
        &&& self.fits()
        &&& self.arena().len() == 2 * self.capacity() + 1
        &&& self.published().len() == self.capacity()
        &&& self.tags().len() == self.capacity()
        &&& self.recovered().len() == self.capacity()
        &&& partitioned(self.owners(), 2 * self.capacity() + 1)
    }

    /// The position that the next write publishes at.
    pub open spec fn next_slot(&self) -> int {
        (self.seqno() % self.capacity()) as int
    }

    /// The number of cells that a drain claims: one per position written to.
    pub open spec fn claimed(&self) -> nat {
        if self.seqno() < self.capacity() {
            self.seqno()
        } else {
            self.capacity()
        }
    }

    /// The position that was written to `j` writes before the next one
    /// (`j == 0`: the newest).
    pub open spec fn slot_back(&self, j: int) -> int {
        steps_back(self.seqno() as int, j, self.capacity() as int)
    }

    /// How many writes back position `p` was last due: the inverse of
    /// `slot_back`.
    pub open spec fn age(&self, p: int) -> int {
        steps_back(self.seqno() as int, p, self.capacity() as int)
    }

    /// What a drain yields: the value in the cell published at each position
    /// written to, from the position written longest ago to the newest.
    pub open spec fn window(&self) -> Seq<T> {
        Seq::new(
            self.claimed(),
            |i: int| self.arena()[self.published()[self.slot_back(self.claimed() - 1 - i)]],
        )
    }

    /// A ring of `size` positions over an arena of `2 * size + 1` cells that
    /// all hold `default_value`. Cell 0 is the spare, cells `1 ..= size` are
    /// published with tag 0, and the rest is the reader's stock.
    pub fn new(size: usize, default_value: T) -> (ret: CircularBuffer<T>)
        requires
            size >= 1,
            2 * size + 1 <= usize::MAX / TAG_SPAN,
        ensures
            ret.wf(),
            ret.capacity() == size,
            ret.seqno() == 0,
            ret.arena() == Seq::new((2 * size + 1) as nat, |c: int| default_value),
            ret.spare() == 0,
            ret.published() == Seq::new(size as nat, |p: int| 1 + p),
            ret.tags() == Seq::new(size as nat, |p: int| 0int),
            ret.recovered() == Seq::new(size as nat, |j: int| 1 + size + j),
            ret.window() == Seq::<T>::empty(),
    {
        let mut ret = CircularBuffer {
            seqno: atomic_new(0),
            data: Vec::new(),
            size: size,
            write_to: Vec::new(),
            read_from: Vec::new(),
            write_tmp: 0,
        };

        let cells: usize = size * 2 + 1;
        let mut c: usize = 0;
        while c < cells
            invariant
                c <= cells,
                ret.size == size,
                ret.write_tmp == 0,
                atomic_value(ret.seqno) == 0,
                ret.write_to@.len() == 0,
                ret.read_from@.len() == 0,
                ret.data@ == Seq::new(c as nat, |k: int| default_value),
            decreases cells - c,
        {
            ret.data.push(default_value);
            c += 1;
            assert(ret.data@ =~= Seq::new(c as nat, |k: int| default_value));
        }

        let mut i: usize = 0;
        while i < size
            invariant
                i <= size,
                2 * size + 1 <= usize::MAX / TAG_SPAN,
                ret.size == size,
                ret.write_tmp == 0,
                atomic_value(ret.seqno) == 0,
                ret.data@ == Seq::new((2 * size + 1) as nat, |k: int| default_value),
                ret.write_to@.len() == i,
                ret.read_from@.len() == i,
                forall|p: int| 0 <= p < i ==> atomic_value(#[trigger] ret.write_to@[p]) == (1 + p) * TAG_SPAN,
                forall|j: int| 0 <= j < i ==> #[trigger] ret.read_from@[j] == 1 + size + j,
            decreases size - i,
        {
            ret.write_to.push(atomic_new((1 + i) * TAG_SPAN));
            ret.read_from.push(1 + size + i);
            i += 1;
        }
        proof {
            assert(ret.published() =~= Seq::new(size as nat, |p: int| 1 + p));
            assert(ret.tags() =~= Seq::new(size as nat, |p: int| 0int));
            assert(ret.recovered() =~= Seq::new(size as nat, |j: int| 1 + size + j));
            assert(ret.owners() =~= Seq::new((2 * size + 1) as nat, |k: int| k));
            assert(ret.window() =~= Seq::<T>::empty());
        }
        ret
    }

    /// Publishes one value: `setter` is given what the spare cell holds and
    /// returns what it shall hold; the spare then changes places with the cell
    /// published at the next position, whose descriptor gets the tag of this
    /// write. Returns the new sequence number.
    pub fn put<F: FnOnce(T) -> T>(&mut self, setter: F) -> (seq: usize)
        requires
            old(self).wf(),
            old(self).seqno() < usize::MAX,
            setter.requires((old(self).arena()[old(self).spare()],)),
        ensures
            final(self).wf(),
            final(self).capacity() == old(self).capacity(),
            final(self).seqno() == old(self).seqno() + 1,
            seq == final(self).seqno(),
            setter.ensures(
                (old(self).arena()[old(self).spare()],),
                final(self).arena()[old(self).spare()],
            ),
            final(self).arena() == old(self).arena().update(
                old(self).spare(),
                final(self).arena()[old(self).spare()],
            ),
            final(self).published() == old(self).published().update(
                old(self).next_slot(),
                old(self).spare(),
            ),
            final(self).tags() == old(self).tags().update(
                old(self).next_slot(),
                old(self).seqno() as int % TAG_SPAN as int,
            ),
            final(self).spare() == old(self).published()[old(self).next_slot()],
            final(self).recovered() == old(self).recovered(),
            final(self).window() == keep_last(
                old(self).window().push(final(self).arena()[old(self).spare()]),
                old(self).capacity(),
            ),
    {
        proof {
            old(self).lemma_owner_facts();
            lemma_mod_bound(old(self).seqno() as int, old(self).capacity() as int);
        }
        let v = setter(self.data[self.write_tmp]);
        self.data[self.write_tmp] = v;

        let seqno = atomic_load(&mut self.seqno);
        let pos = seqno % self.size;

        let new_flag: usize = self.write_tmp * TAG_SPAN + seqno % TAG_SPAN;
        let mut old_flag: usize = atomic_load(&mut self.write_to[pos]);
        let mut old_pos: usize = old_flag / TAG_SPAN;
        let ghost mid = *self;
        assert(mid.published() =~= old(self).published());
        assert(mid.tags() =~= old(self).tags());

        loop
            invariant_except_break
                self.write_tmp == mid.write_tmp,
                forall|p: int|
                    0 <= p < mid.write_to@.len() ==> atomic_value(#[trigger] self.write_to@[p])
                        == atomic_value(mid.write_to@[p]),
                old_pos == old_flag / TAG_SPAN,
            invariant
                self.data@ == mid.data@,
                self.size == mid.size,
                self.read_from@ == mid.read_from@,
                self.seqno == mid.seqno,
                self.write_to@.len() == mid.write_to@.len(),
                pos < self.write_to@.len(),
            ensures
                self.write_tmp == cell_of(atomic_value(mid.write_to@[pos as int])),
                atomic_value(self.write_to@[pos as int]) == new_flag,
                forall|p: int|
                    0 <= p < mid.write_to@.len() && p != pos ==> atomic_value(
                        #[trigger] self.write_to@[p],
                    ) == atomic_value(mid.write_to@[p]),
            decreases
                    (if atomic_value(self.write_to@[pos as int]) == old_flag {
                        0int
                    } else {
                        1int
                    }),
        {
            let result = atomic_compare_and_swap(&mut self.write_to[pos], old_flag, new_flag);
            if result == old_flag {
                self.write_tmp = old_pos;
                break ;
            } else {
                old_flag = result;
                old_pos = old_flag / TAG_SPAN;
            }
        }

        let prev = atomic_fetch_add(&mut self.seqno, 1);
        proof {
            assert(self.published() =~= old(self).published().update(
                old(self).next_slot(),
                old(self).spare(),
            ));
            assert(self.tags() =~= old(self).tags().update(
                old(self).next_slot(),
                old(self).seqno() as int % TAG_SPAN as int,
            ));
            assert(self.recovered() =~= old(self).recovered());
            assert(self.owners() =~= exchanged(old(self).owners(), 0, 1 + old(self).next_slot()));
            lemma_exchange_keeps_partition(
                old(self).owners(),
                0,
                1 + old(self).next_slot(),
                2 * old(self).capacity() + 1,
            );
            Self::lemma_put_window(*old(self), *self, v);
        }
        prev + 1
    }

    /// What the partition says of each holder: every cell lies in the arena,
    /// the spare is not published, and no cell is published twice.
    pub proof fn lemma_owner_facts(self)
        requires
            self.wf(),
        ensures
            0 <= self.spare() < self.arena().len(),
            forall|p: int|
                0 <= p < self.capacity() ==> 0 <= #[trigger] self.published()[p]
                    < self.arena().len() && self.published()[p] != self.spare(),
            forall|j: int|
                0 <= j < self.capacity() ==> 0 <= #[trigger] self.recovered()[j]
                    < self.arena().len() && self.recovered()[j] != self.spare(),
            forall|p: int, j: int|
                0 <= p < self.capacity() && 0 <= j < self.capacity()
                    ==> #[trigger] self.published()[p] != #[trigger] self.recovered()[j],
            forall|p: int, q: int|
                0 <= p < self.capacity() && 0 <= q < self.capacity() && p != q
                    ==> #[trigger] self.published()[p] != #[trigger] self.published()[q],
    {
        let o = self.owners();
        let n = self.capacity() as int;
        assert(o[0] == self.spare());
        assert forall|p: int| 0 <= p < n implies 0 <= #[trigger] self.published()[p]
            < self.arena().len() && self.published()[p] != self.spare() by {
            assert(o[1 + p] == self.published()[p]);
        }
        assert forall|j: int| 0 <= j < n implies 0 <= #[trigger] self.recovered()[j]
            < self.arena().len() && self.recovered()[j] != self.spare() by {
            assert(o[1 + n + j] == self.recovered()[j]);
        }
        assert forall|p: int, j: int| 0 <= p < n && 0 <= j < n implies #[trigger] self.published()[p]
            != #[trigger] self.recovered()[j] by {
            assert(o[1 + p] == self.published()[p]);
            assert(o[1 + n + j] == self.recovered()[j]);
        }
        assert forall|p: int, q: int| 0 <= p < n && 0 <= q < n && p != q implies #[trigger] self.published()[p]
            != #[trigger] self.published()[q] by {
            assert(o[1 + p] == self.published()[p]);
            assert(o[1 + q] == self.published()[q]);
        }
    }

    /// Every cell of the arena has exactly one holder: it is the writer's
    /// spare, or published at some position, or in the reader's stock, and
    /// never two of these at once.
    pub proof fn lemma_every_cell_has_one_holder(self)
        requires
            self.wf(),
        ensures
            forall|c: int|
                0 <= c < self.arena().len() ==> (c == self.spare() || self.published().contains(c)
                    || self.recovered().contains(c)),
            !self.published().contains(self.spare()),
            !self.recovered().contains(self.spare()),
            forall|c: int| !(self.published().contains(c) && self.recovered().contains(c)),
            self.published().no_duplicates(),
            self.recovered().no_duplicates(),
    {
        let o = self.owners();
        let n = self.capacity() as int;
        self.lemma_owner_facts();
        lemma_partition_covers(o, (2 * n + 1) as nat);
        assert forall|c: int| 0 <= c < self.arena().len() implies (c == self.spare()
            || self.published().contains(c) || self.recovered().contains(c)) by {
            assert(o.contains(c));
            let k = choose|k: int| 0 <= k < o.len() && o[k] == c;
            if k == 0 {
            } else if k <= n {
                assert(self.published()[k - 1] == c);
            } else {
                assert(self.recovered()[k - 1 - n] == c);
            }
        }
        assert forall|j: int, k: int|
            0 <= j < n && 0 <= k < n && j != k implies self.recovered()[j]
            != self.recovered()[k] by {
            assert(o[1 + n + j] == self.recovered()[j]);
            assert(o[1 + n + k] == self.recovered()[k]);
        }
    }

    /// A write appends its value to what a drain would yield, and evicts the
    /// oldest value where the ring was full.
    pub proof fn lemma_put_window(pre: Self, post: Self, v: T)
        requires
            pre.wf(),
            post.capacity() == pre.capacity(),
            post.seqno() == pre.seqno() + 1,
            post.arena() == pre.arena().update(pre.spare(), v),
            post.published() == pre.published().update(pre.next_slot(), pre.spare()),
        ensures
            post.window() == keep_last(pre.window().push(v), pre.capacity()),
    {
        let n = pre.capacity() as int;
        let s = pre.seqno() as int;
        let target = keep_last(pre.window().push(v), pre.capacity());
        pre.lemma_owner_facts();
        lemma_mod_bound(s, n);
        assert(post.window().len() == target.len());
        assert forall|i: int| 0 <= i < target.len() implies post.window()[i] == target[i] by {
            let p = post.slot_back(post.claimed() - 1 - i);
            lemma_mod_bound(s + 1 - post.claimed() + i, n);
            if s < n {
                lemma_small_mod(i as nat, n as nat);
                lemma_small_mod(s as nat, n as nat);
                assert(p == i);
                if i < s {
                    assert(pre.slot_back(pre.claimed() - 1 - i) == i);
                }
            } else {
                if i < n - 1 {
                    lemma_mod_distinct(s + 1 - n + i, s, n);
                    assert(pre.slot_back(pre.claimed() - 1 - (i + 1)) == p);
                    assert(target[i] == pre.window()[i + 1]);
                } else {
                    assert(p == s % n);
                }
            }
        }
        assert(post.window() =~= target);
    }

    /// The reader's stock after a drain: the cells claimed, newest first, then
    /// what was not exchanged.
    pub open spec fn drained_recovered(&self) -> Seq<int> {
        Seq::new(
            self.capacity(),
            |j: int|
                if j < self.claimed() {
                    self.published()[self.slot_back(j)]
                } else {
                    self.recovered()[j]
                },
        )
    }

    /// The published cells after a drain: each position written to holds the
    /// cell of the reader's former stock that was given for it.
    pub open spec fn drained_published(&self) -> Seq<int> {
        Seq::new(
            self.capacity(),
            |p: int|
                if self.age(p) < self.claimed() {
                    self.recovered()[self.age(p)]
                } else {
                    self.published()[p]
                },
        )
    }

    /// Drains the ring: walking back from the newest position over every
    /// position written to, exchanges a cell of the reader's stock for the
    /// cell published there, tag untouched, and returns a walk over the
    /// claimed cells' values, oldest first. Nothing is written to the arena,
    /// and the sequence number stays.
    pub fn iter(&mut self) -> (it: CircularBufferIterator<'_, T>)
        requires
            old(self).wf(),
        ensures
            final(self).wf(),
            final(self).capacity() == old(self).capacity(),
            final(self).seqno() == old(self).seqno(),
            final(self).arena() == old(self).arena(),
            final(self).spare() == old(self).spare(),
            final(self).tags() == old(self).tags(),
            final(self).recovered() == old(self).drained_recovered(),
            final(self).published() == old(self).drained_published(),
            it.wf(),
            it.remaining() == old(self).window(),
            it.remaining().len() == old(self).claimed(),
            it.remaining().len() <= old(self).capacity(),
    {
        let ghost pre = *self;
        let ghost n = self.size as int;
        let ghost s0 = atomic_value(self.seqno) as int;
        let mut seqno: usize = atomic_load(&mut self.seqno);
        let mut count: usize = 0;

        loop
            invariant
                n == pre.size,
                s0 == atomic_value(pre.seqno),
                pre.wf(),
                self.size == pre.size,
                self.data@ == pre.data@,
                self.write_tmp == pre.write_tmp,
                atomic_value(self.seqno) == atomic_value(pre.seqno),
                self.read_from@.len() == n,
                self.write_to@.len() == n,
                count <= n,
                count <= s0,
                seqno == s0 - count,
                forall|j: int|
                    0 <= j < n ==> #[trigger] self.read_from@[j] == (if j < count {
                        pre.published()[steps_back(s0, j, n)]
                    } else {
                        pre.read_from@[j] as int
                    }),
                forall|p: int|
                    0 <= p < n ==> atomic_value(#[trigger] self.write_to@[p]) == (if steps_back(
                        s0,
                        p,
                        n,
                    ) < count {
                        pre.read_from@[steps_back(s0, p, n)] * TAG_SPAN + tag_of(
                            atomic_value(pre.write_to@[p]),
                        )
                    } else {
                        atomic_value(pre.write_to@[p]) as int
                    }),
                partitioned(self.owners(), (2 * n + 1) as nat),
            ensures
                count >= n || seqno == 0,
            decreases n - count,
        {
            if count >= self.size || seqno == 0 {
                break ;
            }
            let pos = (seqno - 1) % self.size;
            proof {
                lemma_mod_bound(s0 - 1 - count, n);
                lemma_mod_mirror(s0 - 1, count as int, n);
                assert(self.owners()[1 + n + count] == self.read_from@[count as int]);
                assert(self.owners()[1 + pos] == cell_of(atomic_value(self.write_to@[pos as int])));
            }
            let ghost before = self.owners();
            let r: usize = self.read_from[count];
            let old_flag: usize = atomic_load(&mut self.write_to[pos]);
            let old_pos: usize = old_flag / TAG_SPAN;
            let old_seq: usize = old_flag % TAG_SPAN;
            let new_flag: usize = r * TAG_SPAN + old_seq;

            if old_flag == atomic_compare_and_swap(&mut self.write_to[pos], old_flag, new_flag) {
                self.read_from[count] = old_pos;
                proof {
                    assert(self.owners() =~= exchanged(before, 1 + pos, 1 + n + count));
                    lemma_exchange_keeps_partition(
                        before,
                        1 + pos,
                        1 + n + count,
                        (2 * n + 1) as nat,
                    );
                    assert forall|p: int| 0 <= p < n && p != pos implies #[trigger] steps_back(
                        s0,
                        p,
                        n,
                    ) != count by {
                        lemma_mod_mirror(s0 - 1, p, n);
                    }
                }
                seqno -= 1;
                count += 1;
            } else {
                break ;
            }
        }

        proof {
            assert(self.recovered() =~= pre.drained_recovered());
            assert(self.published() =~= pre.drained_published()) by {
                assert forall|p: int| 0 <= p < n implies 0 <= #[trigger] steps_back(s0, p, n)
                    < n by {
                    lemma_mod_bound(s0 - 1 - p, n);
                }
            }
            assert(self.tags() =~= pre.tags()) by {
                assert forall|p: int| 0 <= p < n implies 0 <= #[trigger] steps_back(s0, p, n)
                    < n by {
                    lemma_mod_bound(s0 - 1 - p, n);
                }
            }
            assert forall|j: int| 0 <= j < count implies #[trigger] self.read_from@[j]
                < self.data@.len() by {
                assert(self.owners()[1 + n + j] == self.read_from@[j]);
            }
        }
        let it = CircularBufferIterator {
            data: self.data.as_slice(),
            revpos: self.read_from.as_slice(),
            count: count,
        };
        assert(it.remaining() =~= pre.window());
        it
    }
}

impl<T: Copy> CircularBuffer<T> {
    /// Two states of a ring that nothing tells apart.
    pub open spec fn same_as(&self, other: &Self) -> bool {
        &&& self.capacity() == other.capacity()
        &&& self.seqno() == other.seqno()
        &&& self.arena() == other.arena()
        &&& self.spare() == other.spare()
        &&& self.published() == other.published()
        &&& self.tags() == other.tags()
        &&& self.recovered() == other.recovered()
    }

    /// Reads off who holds which cell, and each descriptor's tag. The ring is
    /// left as it was.
    pub fn layout(&mut self) -> (l: Layout)
        requires
            old(self).wf(),
        ensures
            final(self).wf(),
            final(self).same_as(old(self)),
            l.spare == old(self).spare(),
            l.published@.len() == old(self).capacity(),
            l.tags@.len() == old(self).capacity(),
            l.recovered@.len() == old(self).capacity(),
            forall|p: int|
                0 <= p < old(self).capacity() ==> #[trigger] l.published@[p] == old(
                    self,
                ).published()[p],
            forall|p: int|
                0 <= p < old(self).capacity() ==> #[trigger] l.tags@[p] == old(self).tags()[p],
            forall|j: int|
                0 <= j < old(self).capacity() ==> #[trigger] l.recovered@[j] == old(
                    self,
                ).recovered()[j],
    {
        let ghost pre = *self;
        let mut published: Vec<usize> = Vec::new();
        let mut tags: Vec<usize> = Vec::new();
        let mut recovered: Vec<usize> = Vec::new();
        let mut p: usize = 0;
        while p < self.size
            invariant
                pre.wf(),
                p <= self.size,
                self.size == pre.size,
                self.data@ == pre.data@,
                self.write_tmp == pre.write_tmp,
                self.seqno == pre.seqno,
                self.read_from@ == pre.read_from@,
                self.write_to@.len() == pre.write_to@.len(),
                forall|q: int|
                    0 <= q < pre.write_to@.len() ==> atomic_value(#[trigger] self.write_to@[q])
                        == atomic_value(pre.write_to@[q]),
                published@.len() == p,
                tags@.len() == p,
                recovered@.len() == p,
                forall|q: int| 0 <= q < p ==> #[trigger] published@[q] == pre.published()[q],
                forall|q: int| 0 <= q < p ==> #[trigger] tags@[q] == pre.tags()[q],
                forall|q: int| 0 <= q < p ==> #[trigger] recovered@[q] == pre.recovered()[q],
            decreases self.size - p,
        {
            let word: usize = atomic_load(&mut self.write_to[p]);
            published.push(word / TAG_SPAN);
            tags.push(word % TAG_SPAN);
            recovered.push(self.read_from[p]);
            p += 1;
        }
        proof {
            assert(self.published() =~= pre.published());
            assert(self.tags() =~= pre.tags());
            assert(self.recovered() =~= pre.recovered());
            assert(self.owners() =~= pre.owners());
        }
        Layout { spare: self.write_tmp, published: published, tags: tags, recovered: recovered }
    }

    /// A drain yields one value per position written to, so never more than
    /// the capacity; with capacity one, at most one.
    pub proof fn lemma_window_bounded(self)
        ensures
            self.window().len() == self.claimed(),
            self.window().len() <= self.capacity(),
            self.window().len() <= self.seqno(),
    {
    }

    /// A drain does not remember what an earlier one handed out. Where no
    /// write comes between two drains, the second walks the same positions
    /// and finds there the cells that the first gave in exchange: it yields
    /// what the reader's stock held before the first. `after` is any state
    /// that a drain of `before` may leave.
    pub proof fn lemma_drain_after_drain(before: Self, after: Self)
        requires
            before.wf(),
            after.capacity() == before.capacity(),
            after.seqno() == before.seqno(),
            after.arena() == before.arena(),
            after.published() == before.drained_published(),
        ensures
            after.window() == Seq::new(
                before.claimed(),
                |i: int| before.arena()[before.recovered()[before.claimed() - 1 - i]],
            ),
    {
        let n = before.capacity() as int;
        let s = before.seqno() as int;
        let again = Seq::new(
            before.claimed(),
            |i: int| before.arena()[before.recovered()[before.claimed() - 1 - i]],
        );
        assert forall|i: int| 0 <= i < before.claimed() implies after.window()[i] == again[i] by {
            let j = before.claimed() - 1 - i;
            lemma_mod_mirror(s - 1, j, n);
            assert(before.age(before.slot_back(j)) == j);
        }
        assert(after.window() =~= again);
    }

    /// A drain leaves the sequence number as it is, so a ring that was never
    /// written to yields nothing, drain after drain: `after` is any state that
    /// a drain of `before` may leave.
    pub proof fn lemma_unwritten_ring_drains_empty(before: Self, after: Self)
        requires
            before.seqno() == 0,
            after.seqno() == before.seqno(),
            after.capacity() == before.capacity(),
        ensures
            before.window() == Seq::<T>::empty(),
            after.window() == Seq::<T>::empty(),
    {
        assert(before.window() =~= Seq::<T>::empty());
        assert(after.window() =~= Seq::<T>::empty());
    }
}

impl<'a, T: Copy> CircularBufferIterator<'a, T> {
    /// Every cell still to be visited lies in the arena.
    pub closed spec fn wf(&self) -> bool {
        &&& self.count <= self.revpos@.len()
        &&& forall|j: int| 0 <= j < self.count ==> #[trigger] self.revpos@[j] < self.data@.len()
    }

    /// The values that the walk has yet to yield, in the order in which it
    /// will yield them.
    pub closed spec fn remaining(&self) -> Seq<T> {
        Seq::new(
            self.count as nat,
            |i: int| self.data@[self.revpos@[self.count - 1 - i] as int],
        )
    }

    /// Yields the next value, or `None` once the walk is over.
    pub fn next(&mut self) -> (r: Option<T>)
        requires
            old(self).wf(),
        ensures
            final(self).wf(),
            old(self).remaining().len() == 0 ==> r.is_none() && final(self).remaining()
                == old(self).remaining(),
            old(self).remaining().len() > 0 ==> r == Some(old(self).remaining()[0])
                && final(self).remaining() == old(self).remaining().skip(1),
    {
        if self.count > 0 {
            self.count -= 1;
            let pos: usize = self.revpos[self.count];
            assert(self.remaining() =~= old(self).remaining().skip(1));
            Some(self.data[pos])
        } else {
            None
        }
    }
}

} // verus!
