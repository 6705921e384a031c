//! Dense `u8` indices for edge-type labels.

use crate::error::GraphError;
use crate::interner::{after_intern, intern_id, texts, Interner};
use vstd::prelude::*;

verus! {

/// How many edge-type labels an index can hold: one for each `u8` index.
pub const MAX_EDGE_TYPES: usize = 256;

/// A bidirectional map between edge-type labels and dense `u8` indices.
///
/// Its view is the sequence of labels: the label at position `i` is the one
/// with index `i`.
pub struct TypeInterner {
    inner: Interner,
}

impl View for TypeInterner {
    type V = Seq<Seq<char>>;

    closed spec fn view(&self) -> Seq<Seq<char>> {
        self.inner@
    }
}

impl TypeInterner {
    /// The interner is sound and holds at most 256 labels.
    pub closed spec fn wf(&self) -> bool {
        &&& self.inner.wf()
        &&& self.inner@.len() <= MAX_EDGE_TYPES
    }

    /// No label is interned twice, and every index fits in a `u8`.
    pub proof fn lemma_wf(&self)
        requires
            self.wf(),
        ensures
            self@.no_duplicates(),
            self@.len() <= MAX_EDGE_TYPES,
    {
        self.inner.lemma_wf();
    }

    /// A type interner that holds no label.
    pub fn new() -> (r: Self)
        ensures
            r.wf(),
            r@ == Seq::<Seq<char>>::empty(),
    {
        TypeInterner { inner: Interner::new() }
    }

    /// Interns a label: returns its index if it has one, or gives it the
    /// smallest unused index. Fails, and changes nothing, when the label is
    /// new and all 256 indices are taken.
    pub fn intern(&mut self, name: &str) -> (r: Result<u8, GraphError>)
        requires
            old(self).wf(),
        ensures
            final(self).wf(),
            match r {
                Ok(id) => {
                    &&& old(self)@.contains(name@) || old(self)@.len() < MAX_EDGE_TYPES
                    &&& final(self)@ == after_intern(old(self)@, name@)
                    &&& id == intern_id(old(self)@, name@)
                },
                Err(e) => {
                    &&& e == GraphError::TooManyEdgeTypes
                    &&& !old(self)@.contains(name@)
                    &&& old(self)@.len() == MAX_EDGE_TYPES
                    &&& final(self)@ == old(self)@
                },
            },
    {
        match self.inner.lookup_id(name) {
            Some(id) => {
                proof {
                    self.inner.lemma_wf();
                    assert(self@.contains(name@));
                    let k = self@.index_of(name@);
                    assert(self@[k] == name@);
                }
                Ok(id as u8)
            },
            None => {
                if self.inner.len() >= MAX_EDGE_TYPES {
                    Err(GraphError::TooManyEdgeTypes)
                } else {
                    let id = self.inner.intern(name);
                    Ok(id as u8)
                }
            },
        }
    }

    /// Reverse lookup: the label that has index `id`, if any.
    pub fn lookup(&self, id: u8) -> (r: Option<&str>)
        ensures
            match r {
                Some(s) => id < self@.len() && s@ == self@[id as int],
                None => id >= self@.len(),
            },
    {
        self.inner.lookup(id as u32)
    }

    /// The index of `name`, if it has been interned.
    pub fn lookup_id(&self, name: &str) -> (r: Option<u8>)
        requires
            self.wf(),
        ensures
            match r {
                Some(id) => id < self@.len() && self@[id as int] == name@,
                None => !self@.contains(name@),
            },
    {
        match self.inner.lookup_id(name) {
            Some(id) => Some(id as u8),
            None => None,
        }
    }

    /// All interned labels, by index.
    pub fn names(&self) -> (r: Vec<String>)
        ensures
            texts(r@) == self@,
    {
        self.inner.names()
    }

    /// Number of interned labels.
    pub fn len(&self) -> (r: usize)
        ensures
            r == self@.len(),
    {
        self.inner.len()
    }

    /// Whether no label is interned.
    pub fn is_empty(&self) -> (r: bool)
        ensures
            r == (self@.len() == 0),
    {
        self.inner.is_empty()
    }
}

} // verus!
