//! A growable vector with a fixed preferred inline capacity.
//!
//! The capacity parameter records how many elements the vector is expected
//! to hold without spilling; the contents are modelled as a plain sequence.

use vstd::prelude::*;

verus! {

/// A growable vector of `T` with a preferred inline capacity of
/// `INLINE_CAP` elements.
#[derive(Debug)]
pub struct SmallVec<T, const INLINE_CAP: usize> {
    data: Vec<T>,
}

impl<T, const INLINE_CAP: usize> View for SmallVec<T, INLINE_CAP> {
    type V = Seq<T>;

    closed spec fn view(&self) -> Seq<T> {
        self.data@
    }
}

impl<T, const INLINE_CAP: usize> SmallVec<T, INLINE_CAP> {
    /// Creates an empty vector.
    pub fn new() -> (r: Self)
        ensures
            r@ == Seq::<T>::empty(),
    {
        let v = SmallVec { data: Vec::new() };
        proof {
            assert(v@ =~= Seq::<T>::empty());
        }
        v
    }

    /// The number of elements held.
    pub fn len(&self) -> (r: usize)
        ensures
            r == self@.len(),
    {
        self.data.len()
    }

    /// Whether the contents still fit the preferred inline capacity.
    pub fn is_inline(&self) -> (r: bool)
        ensures
            r == (self@.len() <= INLINE_CAP),
    {
        self.data.len() <= INLINE_CAP
    }

    /// Appends an element.
    pub fn push(&mut self, value: T)
        ensures
            final(self)@ == old(self)@.push(value),
    {
        self.data.push(value);
    }

    /// Removes and returns the last element, if any.
    pub fn pop(&mut self) -> (r: Option<T>)
        ensures
            old(self)@.len() == 0 ==> r is None && final(self)@ == old(self)@,
            old(self)@.len() > 0 ==> r == Some(old(self)@.last()) && final(self)@ == old(
                self,
            )@.drop_last(),
    {
        self.data.pop()
    }

    /// A borrowed view of the contents.
    pub fn as_slice(&self) -> (r: &[T])
        ensures
            r@ == self@,
    {
        self.data.as_slice()
    }
}

impl<T: Copy, const INLINE_CAP: usize> SmallVec<T, INLINE_CAP> {
    /// Creates a vector holding the elements of an array, in order.
    pub fn from_array<const N: usize>(array: [T; N]) -> (r: Self)
        ensures
            r@ == array@,
    {
        Self::from_slice(array.as_slice())
    }

    /// Creates a vector holding the elements of a slice, in order.
    pub fn from_slice(slice: &[T]) -> (r: Self)
        ensures
            r@ == slice@,
    {
        let v = SmallVec { data: vstd::slice::slice_to_vec(slice) };
        v
    }

    /// Creates a vector holding `count` copies of `value`.
    pub fn repeat(value: T, count: usize) -> (r: Self)
        ensures
            r@.len() == count,
            forall|i: int| 0 <= i < count ==> r@[i] == value,
    {
        let mut data: Vec<T> = Vec::new();
        let mut k: usize = 0;
        while k < count
            invariant
                k <= count,
                data@.len() == k,
                forall|i: int| 0 <= i < k ==> data@[i] == value,
            decreases count - k,
        {
            data.push(value);
            k = k + 1;
        }
        SmallVec { data }
    }
}

} // verus!
