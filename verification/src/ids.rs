//! Stable identifier handles and the interner that issues them.
//!
//! Modules, chunks, chunk groups and dependency paths are all named by dense
//! indices handed out by an [`Interner`]; graph structures index flat arenas
//! with these handles instead of embedding one node in another.

use vstd::prelude::*;

verus! {

/// A stable handle for an interned name. Module identifiers, chunk handles
/// and path identifiers are all indices into an [`Interner`].
pub type Id = usize;

/// Whether the sequence of names `s` holds the name `n`.
pub open spec fn names_contain(s: Seq<Seq<char>>, n: Seq<char>) -> bool {
    exists|i: int| 0 <= i < s.len() && s[i] == n
}

/// Maps names to stable, dense identifiers. A handle, once handed out,
/// always resolves to the same name, and equal names get equal handles.
pub struct Interner {
    names: Vec<String>,
}

impl View for Interner {
    type V = Seq<Seq<char>>;

    /// The interned names, in insertion order; a handle is an index here.
    closed spec fn view(&self) -> Seq<Seq<char>> {
        self.names@.map(|i: int, s: String| s@)
    }
}

impl Interner {
    /// No name occurs twice: handles are as unique as the names they stand for.
    pub open spec fn wf(&self) -> bool {
        forall|i: int, j: int| 0 <= i < j < self@.len() ==> self@[i] != self@[j]
    }

    pub fn new() -> (r: Interner)
        ensures
            r@ == Seq::<Seq<char>>::empty(),
            r.wf(),
    {
        Interner { names: Vec::new() }
    }

    pub fn len(&self) -> (n: usize)
        ensures
            n == self@.len(),
    {
        self.names.len()
    }

    /// The handle already issued for `name`, if any.
    pub fn lookup(&self, name: &String) -> (r: Option<Id>)
        ensures
            match r {
                Some(id) => id < self@.len() && self@[id as int] == name@,
                None => !names_contain(self@, name@),
            },
    {
        let n = self.names.len();
        let mut i: usize = 0;
        while i < n
            invariant
                n == self@.len(),
                i <= n,
                forall|j: int| 0 <= j < i ==> self@[j] != name@,
            decreases n - i,
        {
            let candidate: &String = &self.names[i];
            if *candidate == *name {
                proof {
                    assert(self@[i as int] == self.names@[i as int]@);
                }
                return Some(i);
            }
            proof {
                assert(self@[i as int] == self.names@[i as int]@);
            }
            i = i + 1;
        }
        None
    }

    /// Issues a handle for `name`: the existing one if the name was seen
    /// before, a fresh one (appending the name) otherwise.
    pub fn intern(&mut self, name: String) -> (id: Id)
        requires
            old(self).wf(),
        ensures
            final(self).wf(),
            id < final(self)@.len(),
            final(self)@[id as int] == name@,
            names_contain(old(self)@, name@) ==> final(self)@ == old(self)@,
            !names_contain(old(self)@, name@) ==> final(self)@ == old(self)@.push(name@)
                && id == old(self)@.len(),
    {
        match self.lookup(&name) {
            Some(id) => id,
            None => {
                let id = self.names.len();
                self.names.push(name);
                proof {
                    assert(self@ =~= old(self)@.push(name@));
                }
                id
            }
        }
    }

    /// The name a handle stands for.
    pub fn resolve(&self, id: Id) -> (r: &String)
        requires
            id < self@.len(),
        ensures
            r@ == self@[id as int],
    {
        &self.names[id]
    }
}

} // verus!


