use vstd::prelude::*;
use vstd::std_specs::iter::IteratorSpec;

verus! {

/// A growable sequence of items, kept in the order they were added.
#[derive(Debug)]
pub struct MyCollection<T> {
    items: Vec<T>,
}

impl<T> View for MyCollection<T> {
    type V = Seq<T>;

    closed spec fn view(&self) -> Seq<T> {
        self.items@
    }
}

impl<T> MyCollection<T> {
    pub fn new() -> (c: MyCollection<T>)
        ensures
            c@ == Seq::<T>::empty(),
    {
        MyCollection { items: Vec::new() }
    }

    pub fn add(&mut self, item: T)
        ensures
            final(self)@ == old(self)@.push(item),
    {
        self.items.push(item);
    }

    pub fn len(&self) -> (n: usize)
        ensures
            n == self@.len(),
    {
        self.items.len()
    }

    /// Iterates over the items in order.
    pub fn iter(&self) -> (it: std::slice::Iter<'_, T>)
        ensures
            it.remaining() == self@.as_ref(),
    {
        self.items.iter()
    }
}

impl<T> IntoIterator for MyCollection<T> {
    type Item = T;
    type IntoIter = std::vec::IntoIter<T>;

    fn into_iter(self) -> std::vec::IntoIter<T> {
        self.items.into_iter()
    }
}

impl<'a, T> IntoIterator for &'a MyCollection<T> {
    type Item = &'a T;
    type IntoIter = std::slice::Iter<'a, T>;

    fn into_iter(self) -> std::slice::Iter<'a, T> {
        self.items.iter()
    }
}

} // verus!
