//! A conjunction of terms, kept in the order they were added.

use vstd::prelude::*;

verus! {

/// A conjunction of terms.
#[derive(Debug, Clone, PartialEq, Eq)]
pub struct Conjunction<T>(Vec<T>);

impl<T> View for Conjunction<T> {
    type V = Seq<T>;

    closed spec fn view(&self) -> Seq<T> {
        self.0@
    }
}

impl<T> Conjunction<T> {
    /// A conjunction of the given terms, in order.
    pub fn new(items: Vec<T>) -> (conjunction: Self)
        ensures
            conjunction@ == items@,
    {
        Conjunction(items)
    }

    /// An empty conjunction with room reserved for `capacity` terms.
    pub fn with_capacity(capacity: usize) -> (conjunction: Self)
        ensures
            conjunction@ == Seq::<T>::empty(),
    {
        Conjunction(Vec::with_capacity(capacity))
    }

    /// Appends one term.
    pub fn push(&mut self, item: T)
        ensures
            final(self)@ == old(self)@.push(item),
    {
        self.0.push(item);
    }

    /// Appends every term of `items`, in order.
    pub fn push_all(&mut self, items: Vec<T>)
        ensures
            final(self)@ == old(self)@ + items@,
    {
        let mut items = items;
        self.0.append(&mut items);
    }

    /// Number of terms.
    pub fn len(&self) -> (len: usize)
        ensures
            len == self@.len(),
    {
        self.0.len()
    }

    /// The term at `index`.
    pub fn get(&self, index: usize) -> (item: &T)
        requires
            index < self@.len(),
        ensures
            *item == self@[index as int],
    {
        &self.0[index]
    }

    /// The terms as a vector, borrowed.
    pub fn as_vec(&self) -> (items: &Vec<T>)
        ensures
            items@ == self@,
    {
        &self.0
    }

    /// Hands the terms back as a vector.
    pub fn into_inner(self) -> (items: Vec<T>)
        ensures
            items@ == self@,
    {
        self.0
    }
}

} // verus!
