//! A cursor over the elements that a [`CircularArray`] holds, oldest first.

use crate::model::{advanced, yielded};
use crate::CircularArray;
use vstd::prelude::*;

verus! {

/// A cursor that walks a buffer from its oldest element to its newest.
///
/// The buffer is borrowed for as long as the cursor lives, so it cannot
/// change under it. A cursor that has reached the end stays there; to walk
/// the buffer again, make a new one.
pub struct CircularArrayIter<'a, const N: usize, T: 'a> {
    circular_array: &'a CircularArray<N, T>,
    index: usize,
}

impl<'a, const N: usize, T: 'a> View for CircularArrayIter<'a, N, T> {
    type V = Seq<T>;

    /// The elements still to come, in the order in which they will come.
    closed spec fn view(&self) -> Seq<T> {
        self.circular_array@.contents().skip(self.index as int)
    }
}

impl<'a, const N: usize, T: 'a> CircularArrayIter<'a, N, T> {
    /// The cursor stands on a well-formed buffer, at or before its end.
    pub closed spec fn wf(&self) -> bool {
        &&& self.circular_array.wf()
        &&& self.index <= self.circular_array@.live()
    }

    /// A cursor at the oldest element of `circular_array`.
    pub fn new(circular_array: &'a CircularArray<N, T>) -> (r: Self)
        requires
            circular_array.wf(),
        ensures
            r.wf(),
            r@ == circular_array@.contents(),
    {
        CircularArrayIter { circular_array, index: 0 }
    }
}

impl<'a, const N: usize, T: Copy + Default> CircularArrayIter<'a, N, T> {
    /// The next element, or `None` once every element has been handed out.
    /// A call at the end changes nothing, so every later call returns `None`
    /// as well.
    pub fn next(&mut self) -> (r: Option<&'a T>)
        requires
            old(self).wf(),
        ensures
            final(self).wf(),
            final(self)@ == advanced(old(self)@),
            r matches Some(item) ==> yielded(old(self)@) == Some(*item),
            r is None ==> yielded(old(self)@) is None,
    {
        let ring: &'a CircularArray<N, T> = self.circular_array;
        if self.index < ring.live() {
            let item = &ring[self.index];
            self.index += 1;
            Some(item)
        } else {
            None
        }
    }
}

} // verus!
