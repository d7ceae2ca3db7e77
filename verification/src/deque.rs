//! The chunked deque itself: a list of fixed-capacity blocks, each a
//! double-ended buffer, with the block list itself double-ended. Pushes and
//! pops at either end touch only the terminal block on that side; growth
//! allocates one fresh block and growth never copies elements.

use std::collections::VecDeque;
use vstd::prelude::*;

use crate::model::pushed_back;
use crate::model::pushed_front;

verus! {

/// A double-ended sequence container stored as a list of blocks, each block
/// holding at most `vec_size` elements. Every block that is neither the
/// first nor the last is kept exactly full, so the total length can be
/// computed from the two terminal blocks alone.
pub struct LinkedVec<T> {
    vec_size: usize,
    list: VecDeque<VecDeque<T>>,
}

impl<T> View for LinkedVec<T> {
    type V = Seq<T>;

    /// The abstract contents: the concatenation of all blocks, front first.
    closed spec fn view(&self) -> Seq<T> {
        self.block_views().flatten()
    }
}

impl<T> LinkedVec<T> {
    /// The contents of each block, in list order, front block first.
    pub closed spec fn block_views(&self) -> Seq<Seq<T>> {
        Seq::new(self.list@.len(), |i: int| self.list@[i]@)
    }

    /// The uniform maximum number of elements a single block may hold.
    pub closed spec fn block_size(&self) -> nat {
        self.vec_size as nat
    }

    /// The total capacity: one full block's worth per block in the list.
    pub open spec fn spec_capacity(&self) -> nat {
        self.block_views().len() * self.block_size()
    }

    /// Well-formedness: the block size is positive, at least one block is
    /// always present, no block exceeds the block size, every interior block
    /// is exactly full, a terminal block is only empty when it is the sole
    /// block, and the capacity fits the machine word.
    pub closed spec fn wf(&self) -> bool {
        &&& self.vec_size >= 1
        &&& self.list@.len() >= 1
        &&& forall|i: int|
            0 <= i < self.list@.len() ==> (#[trigger] self.list@[i]@.len()) <= self.vec_size
        &&& forall|i: int|
            0 < i < self.list@.len() - 1 ==> (#[trigger] self.list@[i]@.len()) == self.vec_size
        &&& self.list@.len() > 1 ==> self.list@[0]@.len() >= 1
        &&& self.list@.len() > 1 ==> self.list@.last()@.len() >= 1
        &&& self.list@.len() * self.vec_size <= usize::MAX
    }

    /// The flattened length of a block list of at least two blocks whose
    /// interior blocks each hold exactly `k` elements: only the two terminal
    /// blocks need to be inspected.
    proof fn lemma_flatten_len_full_interior(bs: Seq<Seq<T>>, k: nat)
        requires
            bs.len() >= 2,
            forall|i: int| 0 < i < bs.len() - 1 ==> (#[trigger] bs[i]).len() == k,
        ensures
            bs.flatten().len() == (bs.len() - 2) * k + bs[0].len() + bs.last().len(),
        decreases bs.len(),
    {
        assert(bs.flatten() == bs.first() + bs.drop_first().flatten());
        if bs.len() == 2 {
            bs.drop_first().lemma_flatten_one_element();
            assert(bs.drop_first().first() == bs.last());
        } else {
            let tail = bs.drop_first();
            assert forall|i: int| 0 < i < tail.len() - 1 implies (#[trigger] tail[i]).len()
                == k by {
                assert(tail[i] == bs[i + 1]);
            }
            Self::lemma_flatten_len_full_interior(tail, k);
            assert(tail[0] == bs[1]);
            assert(tail.last() == bs.last());
            assert((bs.len() - 3) * k + k == (bs.len() - 2) * k) by (nonlinear_arith);
        }
    }

    /// The flattened length of a block list none of whose blocks exceeds `k`
    /// elements is at most one full block's worth per block.
    proof fn lemma_flatten_len_at_most_full(bs: Seq<Seq<T>>, k: nat)
        requires
            forall|i: int| 0 <= i < bs.len() ==> (#[trigger] bs[i]).len() <= k,
        ensures
            bs.flatten().len() <= bs.len() * k,
    {
        bs.lemma_flatten_and_flatten_alt_are_equivalent();
        bs.lemma_flatten_length_le_mul(k as int);
    }

    /// Creates a deque with the given block size, holding one empty block.
    pub fn new(vec_size: usize) -> (r: Self)
        requires
            vec_size >= 1,
        ensures
            r.wf(),
            r.block_size() == vec_size,
            r@ == Seq::<T>::empty(),
            r.block_views() == seq![Seq::<T>::empty()],
            r.spec_capacity() == vec_size,
    {
        let mut list: VecDeque<VecDeque<T>> = VecDeque::new();
        list.push_front(VecDeque::with_capacity(vec_size));
        let r = Self { vec_size, list };
        proof {
            assert(r.block_views() =~= seq![Seq::<T>::empty()]);
            r.block_views().lemma_flatten_one_element();
            assert(r@ == Seq::<T>::empty());
        }
        r
    }

    /// Returns how many elements the deque holds. With a single block this
    /// is that block's length; otherwise every interior block is full, so
    /// the count follows from the block count and the two terminal blocks.
    pub fn len(&self) -> (r: usize)
        requires
            self.wf(),
        ensures
            r == self@.len(),
    {
        let n = self.list.len();
        let front_len = self.list[0].len();
        if n == 1 {
            proof {
                self.block_views().lemma_flatten_one_element();
                assert(self.block_views().first() == self.list@[0]@);
            }
            front_len
        } else {
            let back_len = self.list[n - 1].len();
            proof {
                let bs = self.block_views();
                let k = self.block_size();
                Self::lemma_flatten_len_full_interior(bs, k);
                Self::lemma_flatten_len_at_most_full(bs, k);
                assert(bs.last() == self.list@[n - 1]@);
                assert((n - 2) * k <= n * k) by (nonlinear_arith)
                    requires n >= 2;
            }
            (n - 2) * self.vec_size + front_len + back_len
        }
    }

    /// Pushes a value at the front. If the front block is full a fresh block
    /// is allocated to hold the value and linked in as the new front block;
    /// no element is ever moved between blocks. Capacity grows by exactly one
    /// block's worth when and only when the front block was full.
    pub fn push_front(&mut self, value: T)
        requires
            old(self).wf(),
            old(self).block_views()[0].len() == old(self).block_size() ==> old(
                self,
            ).spec_capacity() + old(self).block_size() <= usize::MAX,
        ensures
            final(self).wf(),
            final(self).block_size() == old(self).block_size(),
            final(self)@ == pushed_front(old(self)@, value),
            final(self)@.len() == old(self)@.len() + 1,
            final(self).block_views() == (if old(self).block_views()[0].len() == old(
                self,
            ).block_size() {
                seq![seq![value]] + old(self).block_views()
            } else {
                old(self).block_views().update(0, seq![value] + old(self).block_views()[0])
            }),
            final(self).spec_capacity() == old(self).spec_capacity() + (if old(
                self,
            ).block_views()[0].len() == old(self).block_size() {
                old(self).block_size()
            } else {
                0
            }),
    {
        let ghost bs = self.block_views();
        let ghost k = self.block_size();
        if self.list[0].len() == self.vec_size {
            let mut nb: VecDeque<T> = VecDeque::with_capacity(self.vec_size);
            nb.push_front(value);
            self.list.push_front(nb);
            proof {
                let bs2 = self.block_views();
                assert(bs2 =~= seq![seq![value]] + bs);
                assert(bs2.first() == seq![value]);
                assert(bs2.drop_first() =~= bs);
                assert(bs2.flatten() == bs2.first() + bs2.drop_first().flatten());
                assert(self@ =~= pushed_front(old(self)@, value));
                assert((bs.len() + 1) * k == bs.len() * k + k) by (nonlinear_arith);
            }
        } else {
            let popped = self.list.pop_front();
            let mut fb = popped.unwrap();
            fb.push_front(value);
            self.list.push_front(fb);
            proof {
                let bs2 = self.block_views();
                assert(bs2 =~= bs.update(0, seq![value] + bs[0]));
                assert(bs2.first() == seq![value] + bs[0]);
                assert(bs2.drop_first() =~= bs.drop_first());
                assert(bs2.flatten() == bs2.first() + bs2.drop_first().flatten());
                assert(bs.flatten() == bs.first() + bs.drop_first().flatten());
                assert(self@ =~= pushed_front(old(self)@, value));
            }
        }
    }

    /// Removes and returns the frontmost element, or `None` when the deque is
    /// empty. A front block down to its last element is detached together
    /// with that element whenever another block remains, so capacity shrinks
    /// by one block's worth at that moment; the sole remaining block is never
    /// detached and may be left empty.
    pub fn pop_front(&mut self) -> (r: Option<T>)
        requires
            old(self).wf(),
        ensures
            final(self).wf(),
            final(self).block_size() == old(self).block_size(),
            r is Some <==> old(self)@.len() > 0,
            old(self)@.len() == 0 ==> r is None && final(self).block_views() == old(
                self,
            ).block_views(),
            old(self)@.len() > 0 ==> r == Some(old(self)@[0]) && final(self)@ == old(
                self,
            )@.drop_first(),
            old(self)@.len() == final(self)@.len() + (if r is Some {
                1int
            } else {
                0int
            }),
            final(self).block_views() == (if old(self).block_views()[0].len() == 1 && old(
                self,
            ).block_views().len() > 1 {
                old(self).block_views().drop_first()
            } else if old(self).block_views()[0].len() > 0 {
                old(self).block_views().update(0, old(self).block_views()[0].drop_first())
            } else {
                old(self).block_views()
            }),
            final(self).spec_capacity() == old(self).spec_capacity() - (if old(
                self,
            ).block_views()[0].len() == 1 && old(self).block_views().len() > 1 {
                old(self).block_size()
            } else {
                0
            }),
    {
        let ghost bs = self.block_views();
        let ghost k = self.block_size();
        let n = self.list.len();
        let front_len = self.list[0].len();
        if front_len == 1 && n > 1 {
            let popped = self.list.pop_front();
            let mut fb = popped.unwrap();
            let r = fb.pop_front();
            proof {
                let bs2 = self.block_views();
                assert(bs2 =~= bs.drop_first());
                assert(bs.flatten() == bs.first() + bs.drop_first().flatten());
                assert(old(self)@[0] == bs[0][0]);
                assert(old(self)@.drop_first() =~= bs2.flatten());
                assert((bs.len() - 1) * k == bs.len() * k - k) by (nonlinear_arith);
                Self::lemma_flatten_len_at_most_full(bs2, k);
            }
            r
        } else {
            let popped = self.list.pop_front();
            let mut fb = popped.unwrap();
            let r = fb.pop_front();
            self.list.push_front(fb);
            proof {
                let bs2 = self.block_views();
                if bs[0].len() > 0 {
                    assert(bs2 =~= bs.update(0, bs[0].drop_first()));
                    assert(bs2.flatten() == bs2.first() + bs2.drop_first().flatten());
                    assert(bs.flatten() == bs.first() + bs.drop_first().flatten());
                    assert(bs2.drop_first() =~= bs.drop_first());
                    assert(old(self)@[0] == bs[0][0]);
                    assert(self@ =~= old(self)@.drop_first());
                } else {
                    assert(bs.len() == 1);
                    bs.lemma_flatten_one_element();
                    assert(bs2 =~= bs);
                }
            }
            r
        }
    }

    /// Pushes a value at the back. If the back block is full a fresh block
    /// is allocated to hold the value and linked in as the new back block;
    /// no element is ever moved between blocks. Capacity grows by exactly one
    /// block's worth when and only when the back block was full.
    pub fn push_back(&mut self, value: T)
        requires
            old(self).wf(),
            old(self).block_views().last().len() == old(self).block_size() ==> old(
                self,
            ).spec_capacity() + old(self).block_size() <= usize::MAX,
        ensures
            final(self).wf(),
            final(self).block_size() == old(self).block_size(),
            final(self)@ == pushed_back(old(self)@, value),
            final(self)@.len() == old(self)@.len() + 1,
            final(self).block_views() == (if old(self).block_views().last().len() == old(
                self,
            ).block_size() {
                old(self).block_views().push(seq![value])
            } else {
                old(self).block_views().update(
                    old(self).block_views().len() - 1,
                    old(self).block_views().last().push(value),
                )
            }),
            final(self).spec_capacity() == old(self).spec_capacity() + (if old(
                self,
            ).block_views().last().len() == old(self).block_size() {
                old(self).block_size()
            } else {
                0
            }),
    {
        let ghost bs = self.block_views();
        let ghost k = self.block_size();
        let n = self.list.len();
        if self.list[n - 1].len() == self.vec_size {
            let mut nb: VecDeque<T> = VecDeque::with_capacity(self.vec_size);
            nb.push_back(value);
            self.list.push_back(nb);
            proof {
                let bs2 = self.block_views();
                assert(bs.last() == self.list@[n - 1]@);
                assert(bs2 =~= bs.push(seq![value]));
                bs.lemma_flatten_push(seq![value]);
                assert(self@ =~= pushed_back(old(self)@, value));
                assert((bs.len() + 1) * k == bs.len() * k + k) by (nonlinear_arith);
            }
        } else {
            let popped = self.list.pop_back();
            let mut fb = popped.unwrap();
            fb.push_back(value);
            self.list.push_back(fb);
            proof {
                let bs2 = self.block_views();
                assert(bs2 =~= bs.update(bs.len() - 1, bs.last().push(value)));
                bs.lemma_flatten_and_flatten_alt_are_equivalent();
                bs2.lemma_flatten_and_flatten_alt_are_equivalent();
                assert(bs2.flatten_alt() == bs2.drop_last().flatten_alt() + bs2.last());
                assert(bs.flatten_alt() == bs.drop_last().flatten_alt() + bs.last());
                assert(bs2.drop_last() =~= bs.drop_last());
                assert(self@ =~= pushed_back(old(self)@, value));
            }
        }
    }

    /// Removes and returns the backmost element, or `None` when the deque is
    /// empty. A back block down to its last element is detached together
    /// with that element whenever another block remains, so capacity shrinks
    /// by one block's worth at that moment; the sole remaining block is never
    /// detached and may be left empty.
    pub fn pop_back(&mut self) -> (r: Option<T>)
        requires
            old(self).wf(),
        ensures
            final(self).wf(),
            final(self).block_size() == old(self).block_size(),
            r is Some <==> old(self)@.len() > 0,
            old(self)@.len() == 0 ==> r is None && final(self).block_views() == old(
                self,
            ).block_views(),
            old(self)@.len() > 0 ==> r == Some(old(self)@.last()) && final(self)@ == old(
                self,
            )@.drop_last(),
            old(self)@.len() == final(self)@.len() + (if r is Some {
                1int
            } else {
                0int
            }),
            final(self).block_views() == (if old(self).block_views().last().len() == 1 && old(
                self,
            ).block_views().len() > 1 {
                old(self).block_views().drop_last()
            } else if old(self).block_views().last().len() > 0 {
                old(self).block_views().update(
                    old(self).block_views().len() - 1,
                    old(self).block_views().last().drop_last(),
                )
            } else {
                old(self).block_views()
            }),
            final(self).spec_capacity() == old(self).spec_capacity() - (if old(
                self,
            ).block_views().last().len() == 1 && old(self).block_views().len() > 1 {
                old(self).block_size()
            } else {
                0
            }),
    {
        let ghost bs = self.block_views();
        let ghost k = self.block_size();
        let n = self.list.len();
        let back_len = self.list[n - 1].len();
        proof {
            assert(bs.last() == self.list@[n - 1]@);
        }
        if back_len == 1 && n > 1 {
            let popped = self.list.pop_back();
            let mut fb = popped.unwrap();
            let r = fb.pop_back();
            proof {
                let bs2 = self.block_views();
                assert(bs2 =~= bs.drop_last());
                bs.lemma_flatten_and_flatten_alt_are_equivalent();
                bs2.lemma_flatten_and_flatten_alt_are_equivalent();
                assert(bs.flatten_alt() == bs.drop_last().flatten_alt() + bs.last());
                assert(old(self)@.last() == bs.last().last());
                assert(old(self)@.drop_last() =~= bs2.flatten_alt());
                assert((bs.len() - 1) * k == bs.len() * k - k) by (nonlinear_arith);
                Self::lemma_flatten_len_at_most_full(bs2, k);
            }
            r
        } else {
            let popped = self.list.pop_back();
            let mut fb = popped.unwrap();
            let r = fb.pop_back();
            self.list.push_back(fb);
            proof {
                let bs2 = self.block_views();
                if bs.last().len() > 0 {
                    assert(bs2 =~= bs.update(bs.len() - 1, bs.last().drop_last()));
                    bs.lemma_flatten_and_flatten_alt_are_equivalent();
                    bs2.lemma_flatten_and_flatten_alt_are_equivalent();
                    assert(bs2.flatten_alt() == bs2.drop_last().flatten_alt() + bs2.last());
                    assert(bs.flatten_alt() == bs.drop_last().flatten_alt() + bs.last());
                    assert(bs2.drop_last() =~= bs.drop_last());
                    assert(old(self)@.last() == bs.last().last());
                    assert(self@ =~= old(self)@.drop_last());
                } else {
                    assert(bs.len() == 1);
                    bs.lemma_flatten_one_element();
                    assert(bs2 =~= bs);
                }
            }
            r
        }
    }

    /// Returns the total capacity: the block size times the number of blocks.
    pub fn capacity(&self) -> (r: usize)
        requires
            self.wf(),
        ensures
            r == self.spec_capacity(),
    {
        self.list.len() * self.vec_size
    }

    /// Length and capacity are consistent in every well-formed state: the
    /// length never exceeds the capacity, the capacity is a whole number of
    /// blocks, and at least one block's worth of capacity is always present.
    pub proof fn lemma_len_within_capacity(&self)
        requires
            self.wf(),
        ensures
            self@.len() <= self.spec_capacity(),
            self.spec_capacity() % self.block_size() == 0,
            self.spec_capacity() >= self.block_size(),
    {
        let n = self.block_views().len();
        let k = self.block_size();
        Self::lemma_flatten_len_at_most_full(self.block_views(), k);
        assert(((n * k) as int) % (k as int) == 0) by {
            vstd::arithmetic::div_mod::lemma_mod_multiples_basic(n as int, k as int);
        }
        assert(n * k >= 1 * k) by (nonlinear_arith)
            requires n >= 1 && k >= 0;
    }

    /// The capacity follows the length down as well as up: a deque is either
    /// at its minimum of one block, or its capacity stays strictly within
    /// two blocks' worth above its length, because interior blocks are full
    /// and a terminal block is detached as soon as its last element leaves.
    pub proof fn lemma_capacity_tracks_len(&self)
        requires
            self.wf(),
        ensures
            self.spec_capacity() == self.block_size() || self.spec_capacity() < self@.len() + 2
                * self.block_size(),
    {
        let bs = self.block_views();
        let n = bs.len();
        let k = self.block_size();
        if n == 1 {
            assert(1 * k == k) by (nonlinear_arith);
        } else {
            Self::lemma_flatten_len_full_interior(bs, k);
            assert(n * k == (n - 2) * k + 2 * k) by (nonlinear_arith);
        }
    }
}

} // verus!
