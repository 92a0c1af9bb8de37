//! Persistent hash sets (`im::HashSet`) and a mutable `std` hash set newtype.
use vstd::prelude::*;

use std::collections::HashSet;
use std::hash::Hash;
use vstd::std_specs::hash::obeys_key_model;
use vstd::std_specs::hash::set_contains_borrowed_key;
use vstd::std_specs::hash::sets_differ_by_borrowed_key;

verus! {

#[verifier::external_type_specification]
#[verifier::external_body]
#[verifier::reject_recursive_types(A)]
#[verifier::reject_recursive_types(S)]
pub struct ExPersistentHashSet<A, S>(im::HashSet<A, S>);

/// Persistent hash set of integers, backed by `im::HashSet`.
pub type EffectHashSet = im::HashSet<i32>;

/// The elements held by a persistent set.
pub uninterp spec fn persistent_set_contents(s: im::HashSet<i32>) -> Set<i32>;

/// `im::HashSet::new`: the contract claims the new set holds nothing.
#[verifier::external_body]
fn im_new() -> (s: im::HashSet<i32>)
    ensures
        persistent_set_contents(s) == Set::<i32>::empty(),
{
    im::HashSet::new()
}

/// `im::HashSet::contains`: the contract claims the answer is membership in
/// the set's contents.
#[verifier::external_body]
fn im_contains(s: &im::HashSet<i32>, value: &i32) -> (b: bool)
    ensures
        b == persistent_set_contents(*s).contains(*value),
{
    s.contains(value)
}

/// `im::HashSet::update`: the contract claims the new set holds the old
/// contents plus `value` (finitely many elements), and the old set is left
/// as it was.
#[verifier::external_body]
fn im_update(s: &im::HashSet<i32>, value: i32) -> (r: im::HashSet<i32>)
    ensures
        persistent_set_contents(r) == persistent_set_contents(*s).insert(value),
        persistent_set_contents(r).finite(),
{
    s.update(value)
}

/// `im::HashSet::without`: the contract claims the new set holds the old
/// contents minus `value`, finitely many elements.
#[verifier::external_body]
fn im_without(s: &im::HashSet<i32>, value: &i32) -> (r: im::HashSet<i32>)
    ensures
        persistent_set_contents(r) == persistent_set_contents(*s).remove(*value),
        persistent_set_contents(r).finite(),
{
    s.without(value)
}

/// `im::HashSet::union`: the contract claims the result holds the elements
/// of both sets, finitely many.
#[verifier::external_body]
fn im_union(left: im::HashSet<i32>, right: im::HashSet<i32>) -> (r: im::HashSet<i32>)
    ensures
        persistent_set_contents(r) == persistent_set_contents(left).union(persistent_set_contents(right)),
        persistent_set_contents(r).finite(),
{
    left.union(right)
}

/// `im::HashSet::len`: the contract claims the answer is the number of
/// elements (the set keeps its element count as it changes).
#[verifier::external_body]
fn im_len(s: &im::HashSet<i32>) -> (n: usize)
    ensures
        n == persistent_set_contents(*s).len(),
{
    s.len()
}

/// `im::HashSet::is_empty`: the contract claims the answer is whether the
/// contents are empty.
#[verifier::external_body]
fn im_is_empty(s: &im::HashSet<i32>) -> (b: bool)
    ensures
        b == (persistent_set_contents(*s) == Set::<i32>::empty()),
{
    s.is_empty()
}

/// `im::HashSet::iter`, copied into a `Vec`: the contract claims each element
/// appears exactly once; the order depends on the set's random hasher and is
/// left unsaid.
#[verifier::external_body]
fn im_values(s: &im::HashSet<i32>) -> (v: Vec<i32>)
    ensures
        v@.no_duplicates(),
        v@.to_set() == persistent_set_contents(*s),
{
    s.iter().cloned().collect()
}

/// The contents after one toggle of `value`.
pub open spec fn toggled<A>(s: Set<A>, value: A) -> Set<A> {
    if s.contains(value) {
        s.remove(value)
    } else {
        s.insert(value)
    }
}

/// Empty persistent set.
pub fn empty() -> (s: EffectHashSet)
    ensures
        persistent_set_contents(s) == Set::<i32>::empty(),
{
    im_new()
}

/// Builds a set from the given elements.
pub fn from_iter(items: Vec<i32>) -> (s: EffectHashSet)
    ensures
        persistent_set_contents(s) == items@.to_set(),
{
    let mut s = im_new();
    let mut i: usize = 0;
    while i < items.len()
        invariant
            i <= items@.len(),
            persistent_set_contents(s) == items@.take(i as int).to_set(),
        decreases items@.len() - i,
    {
        s = im_update(&s, items[i]);
        proof {
            assert(items@.take(i as int + 1) =~= items@.take(i as int).push(items@[i as int]));
            crate::collections::hash_set::lemma_push_to_set(items@.take(i as int), items@[i as int]);
        }
        i = i + 1;
    }
    assert(items@.take(i as int) =~= items@);
    s
}

/// Pushing onto a sequence inserts into its set.
pub(crate) proof fn lemma_push_to_set<A>(s: Seq<A>, x: A)
    ensures
        s.push(x).to_set() == s.to_set().insert(x),
{
    assert(s.push(x).to_set() =~= s.to_set().insert(x)) by {
        assert forall|y: A| s.push(x).to_set().contains(y) implies s.to_set().insert(x).contains(y) by {
            let k = choose|k: int| 0 <= k < s.push(x).len() && #[trigger] s.push(x)[k] == y;
            if k < s.len() {
                assert(s[k] == y);
            }
        }
        assert forall|y: A| s.to_set().insert(x).contains(y) implies s.push(x).to_set().contains(y) by {
            if y == x {
                assert(s.push(x)[s.len() as int] == x);
            } else {
                let k = choose|k: int| 0 <= k < s.len() && #[trigger] s[k] == y;
                assert(s.push(x)[k] == y);
            }
        }
    }
}

/// Membership test for `value`.
pub fn has(set: &EffectHashSet, value: &i32) -> (b: bool)
    ensures
        b == persistent_set_contents(*set).contains(*value),
{
    im_contains(set, value)
}

/// Returns a new set including `value`.
pub fn insert(set: &EffectHashSet, value: i32) -> (r: EffectHashSet)
    ensures
        persistent_set_contents(r) == persistent_set_contents(*set).insert(value),
        persistent_set_contents(r).finite(),
{
    im_update(set, value)
}

/// Returns a new set without `value`.
pub fn remove(set: &EffectHashSet, value: &i32) -> (r: EffectHashSet)
    ensures
        persistent_set_contents(r) == persistent_set_contents(*set).remove(*value),
        persistent_set_contents(r).finite(),
{
    im_without(set, value)
}

/// Insert if absent, remove if present; returns the new set and whether the
/// value is now in it.
pub fn toggle(set: &EffectHashSet, value: i32) -> (r: (EffectHashSet, bool))
    ensures
        r.1 == !persistent_set_contents(*set).contains(value),
        persistent_set_contents(r.0) == toggled(persistent_set_contents(*set), value),
        persistent_set_contents(r.0).finite(),
{
    if im_contains(set, &value) {
        (im_without(set, &value), false)
    } else {
        (im_update(set, value), true)
    }
}

/// Set union of `left` and `right`.
pub fn union(left: EffectHashSet, right: EffectHashSet) -> (r: EffectHashSet)
    ensures
        persistent_set_contents(r) == persistent_set_contents(left).union(persistent_set_contents(right)),
        persistent_set_contents(r).finite(),
{
    im_union(left, right)
}

/// Number of elements.
pub fn size(set: &EffectHashSet) -> (n: usize)
    ensures
        n == persistent_set_contents(*set).len(),
{
    im_len(set)
}

/// True when the set has no elements.
pub fn is_empty(set: &EffectHashSet) -> (b: bool)
    ensures
        b == (persistent_set_contents(*set) == Set::<i32>::empty()),
{
    im_is_empty(set)
}

/// All elements, each once (order unspecified).
pub fn values(set: &EffectHashSet) -> (v: Vec<i32>)
    ensures
        v@.no_duplicates(),
        v@.to_set() == persistent_set_contents(*set),
{
    im_values(set)
}

/// In-place mutable set mirroring the persistent helpers.
#[derive(Debug, Default)]
pub struct MutableHashSet<A>(
    /// Backing standard library set.
    pub HashSet<A>,
);

impl<A> View for MutableHashSet<A> {
    type V = Set<A>;

    open spec fn view(&self) -> Set<A> {
        self.0@
    }
}

impl<A: Hash + Eq + Clone> MutableHashSet<A> {
    /// Empty set.
    pub fn new() -> (s: Self)
        ensures
            s@ == Set::<A>::empty(),
    {
        MutableHashSet(HashSet::new())
    }

    /// Whether `value` is in the set.
    pub fn has<Q: Hash + Eq + ?Sized>(&self, value: &Q) -> (b: bool) where A: std::borrow::Borrow<Q>
        ensures
            obeys_key_model::<A>() ==> b == set_contains_borrowed_key(self@, value),
    {
        self.0.contains(value)
    }

    /// Adds `value` to the set.
    pub fn insert(&mut self, value: A)
        ensures
            obeys_key_model::<A>() ==> final(self)@ == old(self)@.insert(value),
    {
        self.0.insert(value);
    }

    /// Removes `value`; returns whether it was present.
    pub fn remove<Q: Hash + Eq + ?Sized>(&mut self, value: &Q) -> (b: bool) where A: std::borrow::Borrow<Q>
        ensures
            obeys_key_model::<A>() ==> {
                &&& sets_differ_by_borrowed_key(old(self)@, final(self)@, value)
                &&& b == set_contains_borrowed_key(old(self)@, value)
            },
    {
        self.0.remove(value)
    }

    /// Insert-if-absent / remove-if-present; returns whether `value` is now in the set.
    pub fn toggle(&mut self, value: A) -> (b: bool)
        ensures
            obeys_key_model::<A>() ==> {
                &&& b == !old(self)@.contains(value)
                &&& final(self)@ == toggled(old(self)@, value)
            },
    {
        broadcast use vstd::std_specs::hash::group_hash_axioms;
        if self.0.remove(&value) {
            false
        } else {
            self.0.insert(value);
            true
        }
    }

    /// Element count.
    pub fn size(&self) -> (n: usize)
        ensures
            obeys_key_model::<A>() ==> n == self@.len(),
    {
        broadcast use vstd::std_specs::hash::group_hash_axioms;
        self.0.len()
    }

    /// True when empty.
    pub fn is_empty(&self) -> (b: bool)
        ensures
            b == self@.is_empty(),
    {
        self.0.is_empty()
    }
}

// ---------------------------------------------------------------------------
// Laws.

/// Toggling twice restores the set, and the two answers differ: the first
/// says whether the value went in, the second that it came out again.
pub proof fn law_toggle_twice_restores<A>(s: Set<A>, value: A)
    ensures
        toggled(toggled(s, value), value) == s,
        toggled(s, value).contains(value) == !s.contains(value),
{
    if s.contains(value) {
        assert(s.remove(value).insert(value) =~= s);
    } else {
        assert(s.insert(value).remove(value) =~= s);
    }
}

} // verus!
