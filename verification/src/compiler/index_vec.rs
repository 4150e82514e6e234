//! Vectors indexed by distinct, checked index types.

use vstd::prelude::*;
use std::marker::PhantomData;

verus! {

/// A typed index into an [`IndexVec`]: a `u32` underneath.
pub trait IndexType: Copy + Sized {
    /// The position this index stands for.
    spec fn idx(self) -> nat;

    /// The index for position `index`. Positions past `u32::MAX` are not representable.
    fn from_usize(index: usize) -> (r: Self)
        requires
            index <= u32::MAX,
        ensures
            r.idx() == index,
    ;

    /// The position this index stands for.
    fn to_usize(self) -> (r: usize)
        ensures
            r == self.idx(),
    ;
}

/// A vector whose elements are addressed by the index type `I`.
pub struct IndexVec<I, T> {
    values: Vec<T>,
    index: PhantomData<I>,
}

impl<I: IndexType, T> IndexVec<I, T> {
    /// The elements in order.
    pub closed spec fn view(&self) -> Seq<T> {
        self.values@
    }

    /// An empty vector.
    pub fn new() -> (r: Self)
        ensures
            r.view() == Seq::<T>::empty(),
    {
        Self { values: Vec::new(), index: PhantomData }
    }

    /// `len` clones of `value`; every position must be representable by `I`.
    pub fn from_elem(value: T, len: usize) -> (r: Self) where T: Clone
        requires
            len <= u32::MAX + 1,
        ensures
            r.view().len() == len,
            forall|i: int| 0 <= i < len ==> cloned(value, #[trigger] r.view()[i]),
    {
        if len != 0 {
            I::from_usize(len - 1);
        }
        Self { values: vec![value; len], index: PhantomData }
    }

    /// The number of elements.
    pub fn len(&self) -> (r: usize)
        ensures
            r == self.view().len(),
    {
        self.values.len()
    }

    /// Appends `value` and returns its index.
    pub fn push(&mut self, value: T) -> (r: I)
        requires
            old(self).view().len() <= u32::MAX,
        ensures
            final(self).view() == old(self).view().push(value),
            r.idx() == old(self).view().len(),
    {
        let index = I::from_usize(self.values.len());
        self.values.push(value);
        index
    }

    /// The element at `index`.
    pub fn get(&self, index: I) -> (r: &T)
        requires
            index.idx() < self.view().len(),
        ensures
            *r == self.view()[index.idx() as int],
    {
        &self.values[index.to_usize()]
    }

    /// The element at `index`, for changing it in place.
    pub fn get_mut(&mut self, index: I) -> (r: &mut T)
        requires
            index.idx() < old(self).view().len(),
        ensures
            *r == old(self).view()[index.idx() as int],
            final(self).view() == old(self).view().update(index.idx() as int, *final(r)),
    {
        let i = index.to_usize();
        &mut self.values[i]
    }

    /// Replaces the element at `index` with `value`.
    pub fn set(&mut self, index: I, value: T)
        requires
            index.idx() < old(self).view().len(),
        ensures
            final(self).view() == old(self).view().update(index.idx() as int, value),
    {
        let i = index.to_usize();
        self.values.set(i, value);
    }
}

impl<I: IndexType, T> Default for IndexVec<I, T> {
    fn default() -> (r: Self)
        ensures
            r.view() == Seq::<T>::empty(),
    {
        Self::new()
    }
}

} // verus!
