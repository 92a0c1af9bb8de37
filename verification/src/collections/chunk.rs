//! An immutable, ordered sequence of values.
use vstd::prelude::*;

verus! {

/// An immutable ordered sequence of values.
#[derive(Clone, Debug, PartialEq, Eq)]
pub struct Chunk<A> {
    items: Vec<A>,
}

impl<A> View for Chunk<A> {
    type V = Seq<A>;

    closed spec fn view(&self) -> Seq<A> {
        self.items@
    }
}

impl<A> Chunk<A> {
    /// The chunk with no elements.
    pub fn empty() -> (c: Self)
        ensures
            c@ == Seq::<A>::empty(),
    {
        Chunk { items: Vec::new() }
    }

    /// The chunk holding the elements of `items`, in order.
    pub fn from_vec(items: Vec<A>) -> (c: Self)
        ensures
            c@ == items@,
    {
        Chunk { items }
    }

    /// Number of elements.
    pub fn len(&self) -> (n: usize)
        ensures
            n == self@.len(),
    {
        self.items.len()
    }

    /// True when the chunk has no elements.
    pub fn is_empty(&self) -> (b: bool)
        ensures
            b <==> self@.len() == 0,
    {
        self.items.len() == 0
    }

    /// The element at `index`, if any.
    pub fn get(&self, index: usize) -> (r: Option<&A>)
        ensures
            r == (if index < self@.len() { Some(&self@[index as int]) } else { None::<&A> }),
    {
        if index < self.items.len() {
            Some(&self.items[index])
        } else {
            None
        }
    }

    /// The elements, in order.
    pub fn into_vec(self) -> (v: Vec<A>)
        ensures
            v@ == self@,
    {
        self.items
    }
}

} // verus!
