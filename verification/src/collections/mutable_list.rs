//! Mutable double-ended list.
use vstd::prelude::*;

use std::collections::VecDeque;

use crate::collections::chunk::Chunk;

verus! {

/// A double-ended list: values are appended or prepended, and taken from
/// either end.
pub struct MutableList<A> {
    inner: VecDeque<A>,
}

impl<A> View for MutableList<A> {
    type V = Seq<A>;

    closed spec fn view(&self) -> Seq<A> {
        self.inner@
    }
}

impl<A> MutableList<A> {
    /// Empty list.
    pub fn make() -> (l: Self)
        ensures
            l@ == Seq::<A>::empty(),
    {
        MutableList { inner: VecDeque::new() }
    }

    /// Push `value` at the back.
    pub fn append(&mut self, value: A)
        ensures
            final(self)@ == old(self)@.push(value),
    {
        self.inner.push_back(value);
    }

    /// Push `value` at the front.
    pub fn prepend(&mut self, value: A)
        ensures
            final(self)@ == seq![value] + old(self)@,
    {
        self.inner.push_front(value);
    }

    /// First element, if any.
    pub fn head(&self) -> (r: Option<A>) where A: Clone
        ensures
            r is Some <==> self@.len() > 0,
            r matches Some(x) ==> cloned(self@[0], x),
    {
        if self.inner.len() == 0 {
            None
        } else {
            Some(self.inner[0].clone())
        }
    }

    /// All elements after the first (empty when the length is at most 1).
    pub fn tail(&self) -> (c: Chunk<A>) where A: Clone
        ensures
            c@.len() == (if self@.len() <= 1 { 0 } else { self@.len() - 1 }),
            forall|k: int| 0 <= k < c@.len() ==> cloned(self@[k + 1], #[trigger] c@[k]),
    {
        let n = self.inner.len();
        if n <= 1 {
            return Chunk::empty();
        }
        let mut v: Vec<A> = Vec::new();
        let mut i: usize = 1;
        while i < n
            invariant
                1 <= i <= n,
                n == self@.len(),
                v@.len() == i - 1,
                forall|k: int| 0 <= k < v@.len() ==> cloned(self@[k + 1], #[trigger] v@[k]),
            decreases n - i,
        {
            let x = self.inner[i].clone();
            v.push(x);
            i = i + 1;
        }
        Chunk::from_vec(v)
    }

    /// Last element, if any.
    pub fn last(&self) -> (r: Option<A>) where A: Clone
        ensures
            r is Some <==> self@.len() > 0,
            r matches Some(x) ==> cloned(self@.last(), x),
    {
        let n = self.inner.len();
        if n == 0 {
            None
        } else {
            Some(self.inner[n - 1].clone())
        }
    }

    /// Remove and return the last element.
    pub fn pop(&mut self) -> (r: Option<A>)
        ensures
            old(self)@.len() == 0 ==> r is None && final(self)@ == old(self)@,
            old(self)@.len() > 0 ==> r == Some(old(self)@.last()) && final(self)@ == old(self)@.drop_last(),
    {
        self.inner.pop_back()
    }

    /// Remove and return the first element.
    pub fn shift(&mut self) -> (r: Option<A>)
        ensures
            old(self)@.len() == 0 ==> r is None && final(self)@ == old(self)@,
            old(self)@.len() > 0 ==> r == Some(old(self)@[0]) && final(self)@ == old(self)@.drop_first(),
    {
        self.inner.pop_front()
    }

    /// Snapshot of the whole list as an immutable [`Chunk`].
    pub fn to_chunk(&self) -> (c: Chunk<A>) where A: Clone
        ensures
            c@.len() == self@.len(),
            forall|k: int| 0 <= k < c@.len() ==> cloned(self@[k], #[trigger] c@[k]),
    {
        let n = self.inner.len();
        let mut v: Vec<A> = Vec::new();
        let mut i: usize = 0;
        while i < n
            invariant
                i <= n,
                n == self@.len(),
                v@.len() == i,
                forall|k: int| 0 <= k < v@.len() ==> cloned(self@[k], #[trigger] v@[k]),
            decreases n - i,
        {
            let x = self.inner[i].clone();
            v.push(x);
            i = i + 1;
        }
        Chunk::from_vec(v)
    }

    /// Invokes `f` for each element in order.
    pub fn for_each<F: FnMut(&A)>(&self, mut f: F)
        requires
            forall|k: int, g: F| 0 <= k < self@.len() ==> #[trigger] call_requires(g, (&self@[k],)),
    {
        let n = self.inner.len();
        let mut i: usize = 0;
        while i < n
            invariant
                i <= n,
                n == self@.len(),
                forall|k: int, g: F| 0 <= k < self@.len() ==> #[trigger] call_requires(g, (&self@[k],)),
            decreases n - i,
        {
            f(&self.inner[i]);
            i = i + 1;
        }
    }

    /// Number of elements.
    pub fn length(&self) -> (n: usize)
        ensures
            n == self@.len(),
    {
        self.inner.len()
    }
}

/// Accumulates elements in a [`MutableList`] and then freezes them into a [`Chunk`].
pub struct ChunkBuilder<A> {
    list: MutableList<A>,
}

impl<A> View for ChunkBuilder<A> {
    type V = Seq<A>;

    closed spec fn view(&self) -> Seq<A> {
        self.list@
    }
}

impl<A> ChunkBuilder<A> {
    /// Empty builder.
    pub fn new() -> (b: Self)
        ensures
            b@ == Seq::<A>::empty(),
    {
        ChunkBuilder { list: MutableList::make() }
    }

    /// Append `value` in list order.
    pub fn append(&mut self, value: A)
        ensures
            final(self)@ == old(self)@.push(value),
    {
        self.list.append(value);
    }

    /// Freeze the accumulated values into a [`Chunk`].
    pub fn to_chunk(&self) -> (c: Chunk<A>) where A: Clone
        ensures
            c@.len() == self@.len(),
            forall|k: int| 0 <= k < c@.len() ==> cloned(self@[k], #[trigger] c@[k]),
    {
        self.list.to_chunk()
    }
}

impl<A> Default for ChunkBuilder<A> {
    fn default() -> (b: Self)
        ensures
            b@ == Seq::<A>::empty(),
    {
        Self::new()
    }
}

// ---------------------------------------------------------------------------
// Laws.

/// Appending then popping gives back the appended value and the list as it was.
pub proof fn law_pop_undoes_append<A>(items: Seq<A>, value: A)
    ensures
        items.push(value).len() > 0,
        items.push(value).last() == value,
        items.push(value).drop_last() == items,
{
    assert(items.push(value).drop_last() =~= items);
}

/// Prepending then shifting gives back the prepended value and the list as it was.
pub proof fn law_shift_undoes_prepend<A>(items: Seq<A>, value: A)
    ensures
        (seq![value] + items).len() > 0,
        (seq![value] + items)[0] == value,
        (seq![value] + items).drop_first() == items,
{
    assert((seq![value] + items).drop_first() =~= items);
}

/// Values appended one after another come out of the front in the same order.
pub proof fn law_append_then_shift_is_first_in_first_out<A>(items: Seq<A>, a: A, b: A)
    ensures
        items.len() == 0 ==> items.push(a).push(b)[0] == a && items.push(a).push(b).drop_first() == seq![b],
{
    if items.len() == 0 {
        assert(items.push(a).push(b).drop_first() =~= seq![b]);
    }
}

} // verus!
