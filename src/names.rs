//! A name environment: an append-only stack of distinct identifiers, looked
//! up by position from the bottom.

use vstd::prelude::*;
use crate::syntax::Ident;

verus! {

/// The identifiers of `s` are pairwise distinct.
pub open spec fn distinct(s: Seq<(Seq<char>, u64)>) -> bool {
    forall|i: int, j: int| 0 <= i < j < s.len() ==> s[i] != s[j]
}

/// An identifier was added to an environment that already held it.
#[derive(Debug)]
pub struct DuplicateName {
    pub ident: Ident,
}

#[derive(Debug)]
pub struct Names {
    names: Vec<Ident>,
}

impl View for Names {
    type V = Seq<(Seq<char>, u64)>;

    closed spec fn view(&self) -> Seq<(Seq<char>, u64)> {
        self.names@.map_values(|i: Ident| i@)
    }
}

impl Names {
    /// No identifier occurs twice.
    pub open spec fn wf(&self) -> bool {
        distinct(self@)
    }

    pub fn new() -> (r: Names)
        ensures
            r@ == Seq::<(Seq<char>, u64)>::empty(),
            r.wf(),
    {
        let r = Names { names: Vec::new() };
        proof {
            assert(r@ =~= Seq::<(Seq<char>, u64)>::empty());
        }
        r
    }

    pub fn len(&self) -> (r: usize)
        ensures
            r == self@.len(),
    {
        self.names.len()
    }

    /// The position of `id`, counted from the oldest entry, if it is bound.
    pub fn lookup(&self, id: &Ident) -> (r: Option<usize>)
        ensures
            match r {
                Some(i) => i < self@.len() && self@[i as int] == id@,
                None => !self@.contains(id@),
            },
    {
        let mut i: usize = 0;
        while i < self.names.len()
            invariant
                i <= self.names@.len(),
                self@.len() == self.names@.len(),
                forall|j: int| 0 <= j < i ==> self@[j] != id@,
            decreases self.names@.len() - i,
        {
            if self.names[i] == *id {
                return Some(i);
            }
            i = i + 1;
        }
        proof {
            if self@.contains(id@) {
                let j = choose|j: int| 0 <= j < self@.len() && self@[j] == id@;
                assert(self@[j] != id@);
            }
        }
        None
    }

    /// Appends `id`, or hands it back if an equal identifier is already bound.
    pub fn add_name(&mut self, id: Ident) -> (r: Result<(), DuplicateName>)
        requires
            old(self).wf(),
        ensures
            final(self).wf(),
            match r {
                Ok(()) => !old(self)@.contains(id@) && final(self)@ == old(self)@.push(id@),
                Err(e) => old(self)@.contains(id@) && final(self)@ == old(self)@ && e.ident@ == id@,
            },
    {
        match self.lookup(&id) {
            Some(_) => Err(DuplicateName { ident: id }),
            None => {
                let ghost v = id@;
                self.names.push(id);
                proof {
                    assert(self@ =~= old(self)@.push(v));
                }
                Ok(())
            },
        }
    }

    /// Drops every entry added after the environment had `len` entries.
    pub fn truncate(&mut self, len: usize)
        requires
            old(self).wf(),
            len <= old(self)@.len(),
        ensures
            final(self).wf(),
            final(self)@ == old(self)@.subrange(0, len as int),
    {
        self.names.truncate(len);
        proof {
            assert(self@ =~= old(self)@.subrange(0, len as int));
        }
    }
}

} // verus!
