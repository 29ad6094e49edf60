//! A fixed-capacity ring buffer that overwrites its oldest element when full.
//!
//! [`CircularArray`] takes any number of pushes and keeps the most recent `N`
//! of them. Its contracts are stated over [`model::Ring`], the mathematical
//! state of the buffer; the laws that follow from them are proved in
//! [`model`].

pub mod iter;
pub mod model;

use crate::iter::CircularArrayIter;
use crate::model::{
    lemma_push_contents, lemma_push_keeps_wf, lemma_set_then_get, lemma_snapshot_shape,
    lemma_wrap_once, newest, Ring,
};
use vstd::prelude::*;

verus! {

/// A ring buffer over a fixed array of `N` slots. It takes any number of
/// pushes and holds the most recent `N` items, which are read by logical
/// index: index 0 is the oldest item held.
///
/// A buffer with `N == 0` is allowed. It holds nothing, ever: a push into it
/// is counted and the item is dropped.
#[derive(Debug)]
pub struct CircularArray<const N: usize, T> {
    arr: [T; N],
    start: usize,
    len: usize,
}

impl<const N: usize, T> View for CircularArray<N, T> {
    type V = Ring<T>;

    closed spec fn view(&self) -> Ring<T> {
        Ring { slots: self.arr@, write_pos: self.start as nat, count: self.len as nat }
    }
}

impl<const N: usize, T> CircularArray<N, T> {
    /// The state is that of a ring with `N` slots, and its invariant holds.
    /// Every buffer that [`CircularArray::new`] made and the methods of this
    /// type changed is well formed.
    pub open spec fn wf(&self) -> bool {
        &&& self@.wf()
        &&& self@.capacity() == N
    }
}

impl<const N: usize, T: Copy + Default> CircularArray<N, T> {
    /// An empty buffer. Every slot of its storage holds the default value of
    /// `T`.
    pub fn new() -> (r: Self)
        ensures
            r.wf(),
            r@.count == 0,
            forall|i: int| 0 <= i < N ==> call_ensures(T::default, (), #[trigger] r@.slots[i]),
            forall|i: int, j: int| 0 <= i < N && 0 <= j < N ==> r@.slots[i] == r@.slots[j],
    {
        Self { arr: [T::default(); N], start: 0, len: 0 }
    }

    /// Appends `item`. Once the buffer is full, the item takes the place of
    /// the oldest element.
    pub fn push(&mut self, item: T)
        requires
            old(self).wf(),
        ensures
            final(self).wf(),
            final(self)@ == old(self)@.push(item),
            final(self)@.contents() == newest(old(self)@.contents().push(item), N as nat),
    {
        proof {
            lemma_push_keeps_wf(self@, item);
            lemma_push_contents(self@, item);
        }
        if N > 0 {
            if self.len >= N {
                self.arr[self.start] = item;
            } else {
                self.arr[self.len] = item;
            }
            self.start = (self.start + 1) % N;
        }
        self.len = self.len.saturating_add(1);
    }

    /// A copy of all `N` slots in logical order, oldest first.
    ///
    /// While the buffer is filling, the elements held come first and the
    /// slots that no push has written yet follow them.
    pub fn to_array(&self) -> (r: [T; N])
        requires
            self.wf(),
        ensures
            r@ == self@.snapshot(),
            r@.len() == N,
            r@.take(self@.live() as int) == self@.contents(),
    {
        proof {
            lemma_snapshot_shape(self@);
        }
        let mut out = self.arr;
        if self.len >= N && self.start > 0 {
            let tail = N - self.start;
            let mut i: usize = 0;
            while i < tail
                invariant
                    self.wf(),
                    0 < self.start < N,
                    tail == N - self.start,
                    i <= tail,
                    forall|k: int| 0 <= k < i ==> out@[k] == self.arr@[self.start + k],
                decreases tail - i,
            {
                out[i] = self.arr[self.start + i];
                i += 1;
            }
            while i < N
                invariant
                    self.wf(),
                    0 < self.start < N,
                    tail == N - self.start,
                    tail <= i <= N,
                    forall|k: int| 0 <= k < tail ==> out@[k] == self.arr@[self.start + k],
                    forall|k: int| tail <= k < i ==> out@[k] == self.arr@[k - tail],
                decreases N - i,
            {
                out[i] = self.arr[i - tail];
                i += 1;
            }
            assert(out@ =~= self@.snapshot());
        }
        out
    }

    /// The storage as it stands, slot by slot in physical order.
    pub fn storage(&self) -> (r: &[T; N])
        ensures
            r@ == self@.slots,
    {
        &self.arr
    }

    /// A cursor at the oldest element held.
    pub fn iter(&self) -> (r: CircularArrayIter<'_, N, T>)
        requires
            self.wf(),
        ensures
            r.wf(),
            r@ == self@.contents(),
    {
        CircularArrayIter::new(self)
    }

    /// The element pushed most recently, or `None` where the buffer holds
    /// nothing.
    pub fn last(&self) -> (r: Option<&T>)
        requires
            self.wf(),
        ensures
            r matches Some(item) ==> self@.last() == Some(*item),
            r is None ==> self@.last() is None,
    {
        if N == 0 {
            None
        } else if self.len >= N {
            Some(&self[N - 1])
        } else if self.len > 0 {
            Some(&self[self.len - 1])
        } else {
            None
        }
    }

    /// The number of pushes made so far. It is not capped at `N`; it stops
    /// growing only at `usize::MAX`.
    pub fn len(&self) -> (r: usize)
        ensures
            r == self@.count,
    {
        self.len
    }

    /// The element at logical index `index`, where index 0 is the oldest
    /// element held, or `None` where no element is held there. A slot that
    /// no push has written yet holds no element.
    pub fn get(&self, index: usize) -> (r: Option<&T>)
        requires
            self.wf(),
        ensures
            r matches Some(item) ==> self@.get(index as int) == Some(*item),
            r is None ==> self@.get(index as int) is None,
    {
        if index < self.live() {
            Some(&self[index])
        } else {
            None
        }
    }

    /// Replaces the element at logical index `index` by `value`. Where no
    /// element is held there, the buffer stays as it is and the error says
    /// which index was asked for and how many elements are held.
    pub fn set(&mut self, index: usize, value: T) -> (r: Result<(), IndexOutOfRange>)
        requires
            old(self).wf(),
        ensures
            final(self).wf(),
            r is Ok <==> index < old(self)@.live(),
            r is Ok ==> final(self)@ == old(self)@.set(index as int, value),
            r is Ok ==> final(self)@.contents() == old(self)@.contents().update(index as int, value),
            r is Err ==> *final(self) == *old(self),
            r matches Err(e) ==> e.index == index && e.live == old(self)@.live(),
    {
        let live = self.live();
        if index < live {
            proof {
                lemma_set_then_get(self@, index as int, value);
            }
            let p = self.slot(index);
            self.arr[p] = value;
            Ok(())
        } else {
            Err(IndexOutOfRange { index, live })
        }
    }

    /// The number of elements held.
    pub(crate) fn live(&self) -> (r: usize)
        ensures
            r == self@.live(),
    {
        if self.len >= N {
            N
        } else {
            self.len
        }
    }

    /// The slot that holds the element at logical index `index`.
    fn slot(&self, index: usize) -> (p: usize)
        requires
            self.wf(),
            index < self@.live(),
        ensures
            p == self@.slot_of(index as int),
            p < N,
    {
        proof {
            if self@.is_full() {
                lemma_wrap_once(self.start as int, index as int, N as int);
            }
        }
        if self.len >= N {
            let tail = N - self.start;
            if index < tail {
                self.start + index
            } else {
                index - tail
            }
        } else {
            index
        }
    }
}

impl<const N: usize, T: Copy + Default> std::ops::Index<usize> for CircularArray<N, T> {
    type Output = T;

    /// The element at logical index `index`, where index 0 is the oldest
    /// element held.
    fn index(&self, index: usize) -> (r: &T)
        ensures
            *r == self@.contents()[index as int],
    {
        let p = self.slot(index);
        &self.arr[p]
    }
}

impl<const N: usize, T: Copy + Default> vstd::std_specs::core::IndexSpecImpl<usize> for CircularArray<N, T> {
    /// An index can be read where the buffer holds an element there.
    open spec fn index_req(&self, index: &usize) -> bool {
        self.wf() && *index < self@.live()
    }
}

impl<const N: usize, T: Copy + Default> std::ops::IndexMut<usize> for CircularArray<N, T> {
    /// The element at logical index `index`, to be changed in place. Whatever
    /// the caller leaves there is the element at that index afterwards.
    fn index_mut(&mut self, index: usize) -> (r: &mut T)
        requires
            old(self).wf(),
            index < old(self)@.live(),
        ensures
            *r == old(self)@.contents()[index as int],
            final(self).wf(),
            final(self)@ == old(self)@.set(index as int, *final(r)),
            final(self)@.contents() == old(self)@.contents().update(index as int, *final(r)),
    {
        proof {
            let ring = self@;
            assert forall|value: T| #[trigger]
                ring.set(index as int, value).contents() == ring.contents().update(
                    index as int,
                    value,
                ) by {
                lemma_set_then_get(ring, index as int, value);
            }
        }
        let p = self.slot(index);
        &mut self.arr[p]
    }
}

/// An index was asked for at which the buffer holds no element.
#[derive(Debug, Clone, Copy, PartialEq, Eq)]
pub struct IndexOutOfRange {
    /// The logical index that was asked for.
    pub index: usize,
    /// The number of elements that the buffer held.
    pub live: usize,
}

} // verus!
