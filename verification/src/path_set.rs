//! Insertion-ordered sets of dependency-path handles, backed by indexmap's
//! `IndexSet`. The make artifact keeps four of these: file, context, missing
//! and build dependency paths.

use vstd::prelude::*;
use crate::ids::Id;

verus! {

#[verifier::external_type_specification]
#[verifier::external_body]
#[verifier::reject_recursive_types(T)]
#[verifier::reject_recursive_types(S)]
pub struct ExIndexSet<T, S>(indexmap::IndexSet<T, S>);

/// The elements an `IndexSet` of path handles holds, in insertion order.
pub uninterp spec fn index_set_elems(
    s: indexmap::IndexSet<usize, std::collections::hash_map::RandomState>,
) -> Seq<usize>;

/// An insertion-ordered set of path handles: inserting an element already
/// present changes nothing, a new element is appended.
pub struct PathSet {
    inner: indexmap::IndexSet<usize>,
}

impl View for PathSet {
    type V = Seq<usize>;

    /// The elements in insertion order; no element occurs twice.
    closed spec fn view(&self) -> Seq<usize> {
        index_set_elems(self.inner)
    }
}

impl PathSet {
    /// Relies on indexmap's `IndexSet::new`: the fresh set is empty.
    #[verifier::external_body]
    fn new_inner() -> (r: PathSet)
        ensures
            index_set_elems(r.inner) == Seq::<usize>::empty(),
    {
        PathSet { inner: indexmap::IndexSet::new() }
    }

    /// Relies on indexmap's `IndexSet::insert`: a value already present is
    /// left in place (returning false), a new value is appended in insertion
    /// order (returning true).
    #[verifier::external_body]
    fn insert_inner(&mut self, p: Id) -> (r: bool)
        ensures
            index_set_elems(final(self).inner) == if index_set_elems(old(self).inner).contains(p) {
                index_set_elems(old(self).inner)
            } else {
                index_set_elems(old(self).inner).push(p)
            },
            r == !index_set_elems(old(self).inner).contains(p),
    {
        self.inner.insert(p)
    }

    /// Relies on indexmap's `IndexSet::len`: the number of elements.
    #[verifier::external_body]
    fn len_inner(&self) -> (n: usize)
        ensures
            n == index_set_elems(self.inner).len(),
    {
        self.inner.len()
    }

    /// Relies on indexmap's `IndexSet::get_index`: for an index below the
    /// length it returns the element at that position in insertion order.
    #[verifier::external_body]
    fn get_index_inner(&self, i: usize) -> (p: Id)
        requires
            i < index_set_elems(self.inner).len(),
        ensures
            p == index_set_elems(self.inner)[i as int],
    {
        *self.inner.get_index(i).expect("index is below the length")
    }

    pub fn new() -> (r: PathSet)
        ensures
            r@ == Seq::<usize>::empty(),
    {
        PathSet::new_inner()
    }

    /// Add one path handle; returns whether it was new.
    pub fn add(&mut self, p: Id) -> (r: bool)
        ensures
            final(self)@ == if old(self)@.contains(p) { old(self)@ } else { old(self)@.push(p) },
            r == !old(self)@.contains(p),
            final(self)@.contains(p),
            forall|q: usize| old(self)@.contains(q) ==> final(self)@.contains(q),
    {
        let r = self.insert_inner(p);
        proof {
            if !old(self)@.contains(p) {
                assert(self@[self@.len() - 1] == p);
            }
            assert forall|q: usize| old(self)@.contains(q) implies self@.contains(q) by {
                let j = choose|j: int| 0 <= j < old(self)@.len() && old(self)@[j] == q;
                assert(self@[j] == q);
            }
        }
        r
    }

    /// Add every handle in `ps`, in order.
    pub fn add_all(&mut self, ps: &Vec<Id>)
        ensures
            forall|k: int| 0 <= k < ps@.len() ==> final(self)@.contains(#[trigger] ps@[k]),
            forall|q: usize| old(self)@.contains(q) ==> final(self)@.contains(q),
    {
        let n = ps.len();
        let mut i: usize = 0;
        while i < n
            invariant
                n == ps@.len(),
                i <= n,
                forall|k: int| 0 <= k < i ==> self@.contains(#[trigger] ps@[k]),
                forall|q: usize| old(self)@.contains(q) ==> self@.contains(q),
            decreases n - i,
        {
            self.add(ps[i]);
            i = i + 1;
        }
    }

    pub fn len(&self) -> (n: usize)
        ensures
            n == self@.len(),
    {
        self.len_inner()
    }

    /// The element at position `i` in insertion order.
    pub fn get(&self, i: usize) -> (p: Id)
        requires
            i < self@.len(),
        ensures
            p == self@[i as int],
    {
        self.get_index_inner(i)
    }

    /// Whether `p` is in the set.
    pub fn contains(&self, p: Id) -> (r: bool)
        ensures
            r == self@.contains(p),
    {
        let n = self.len_inner();
        let mut i: usize = 0;
        while i < n
            invariant
                n == self@.len(),
                i <= n,
                forall|j: int| 0 <= j < i ==> self@[j] != p,
            decreases n - i,
        {
            if self.get_index_inner(i) == p {
                return true;
            }
            i = i + 1;
        }
        false
    }
}

} // verus!
