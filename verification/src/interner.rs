//! Dense integer indices for string identifiers.

use vstd::hash_map::StringHashMap;
use vstd::prelude::*;

verus! {

/// How many names one interner can hold: one for each `u32` index.
pub const MAX_INTERNED: u64 = 0x1_0000_0000;

/// The strings of `names` as character sequences.
pub open spec fn texts(names: Seq<String>) -> Seq<Seq<char>> {
    names.map_values(|s: String| s@)
}

/// The names after `name` has been interned into `names`.
pub open spec fn after_intern(names: Seq<Seq<char>>, name: Seq<char>) -> Seq<Seq<char>> {
    if names.contains(name) {
        names
    } else {
        names.push(name)
    }
}

/// The index that interning `name` into `names` yields: the index it already
/// has, or else the smallest unused one.
pub open spec fn intern_id(names: Seq<Seq<char>>, name: Seq<char>) -> int {
    if names.contains(name) {
        names.index_of(name)
    } else {
        names.len() as int
    }
}

/// Interning yields an index at which the name is then found.
pub proof fn lemma_intern_then_lookup(names: Seq<Seq<char>>, name: Seq<char>)
    ensures
        0 <= intern_id(names, name) < after_intern(names, name).len(),
        after_intern(names, name)[intern_id(names, name)] == name,
{
}

/// Interning the same name a second time changes nothing and yields the
/// same index.
pub proof fn lemma_intern_idempotent(names: Seq<Seq<char>>, name: Seq<char>)
    requires
        names.no_duplicates(),
    ensures
        after_intern(after_intern(names, name), name) == after_intern(names, name),
        intern_id(after_intern(names, name), name) == intern_id(names, name),
        after_intern(names, name).no_duplicates(),
{
    let next = after_intern(names, name);
    if !names.contains(name) {
        assert(next[names.len() as int] == name);
        assert(next.contains(name));
        assert forall|i: int, j: int| 0 <= i < next.len() && 0 <= j < next.len() && i != j implies next[i]
            != next[j] by {
            if i < names.len() {
                assert(names.contains(next[i]));
            }
            if j < names.len() {
                assert(names.contains(next[j]));
            }
        }
        let k = next.index_of(name);
        assert(next[k] == name);
        if k < names.len() {
            assert(names.contains(names[k]));
        }
    }
}

/// Interning never moves a name that was already there.
pub proof fn lemma_intern_keeps_indices(names: Seq<Seq<char>>, name: Seq<char>, i: int)
    requires
        0 <= i < names.len(),
    ensures
        after_intern(names, name).len() >= names.len(),
        after_intern(names, name)[i] == names[i],
{
}

/// A bidirectional map between string identifiers and dense `u32` indices.
///
/// Its view is the sequence of interned names: the name at position `i` is the
/// one with index `i`.
pub struct Interner {
    map: StringHashMap<u32>,
    vec: Vec<String>,
}

impl View for Interner {
    type V = Seq<Seq<char>>;

    closed spec fn view(&self) -> Seq<Seq<char>> {
        texts(self.vec@)
    }
}

impl Interner {
    /// The hash table and the dense vector describe the same mapping.
    pub closed spec fn wf(&self) -> bool {
        &&& self.vec@.len() <= MAX_INTERNED
        &&& forall|i: int|
            0 <= i < self.vec@.len() ==> self.map@.contains_key(#[trigger] self@[i])
                && self.map@[self@[i]] == i
        &&& forall|k: Seq<char>| #[trigger]
            self.map@.contains_key(k) ==> self.map@[k] < self.vec@.len() && self@[self.map@[k] as int]
                == k
    }

    /// No name is interned twice, and every index fits in a `u32`.
    pub proof fn lemma_wf(&self)
        requires
            self.wf(),
        ensures
            self@.no_duplicates(),
            self@.len() <= MAX_INTERNED,
    {
    }

    /// An interner that holds no name.
    pub fn new() -> (r: Self)
        ensures
            r.wf(),
            r@ == Seq::<Seq<char>>::empty(),
    {
        let r = Interner { map: StringHashMap::new(), vec: Vec::new() };
        assert(r@ =~= Seq::<Seq<char>>::empty());
        r
    }

    /// Interns a string: returns its index if it has one, or gives it the
    /// smallest unused index.
    pub fn intern(&mut self, name: &str) -> (id: u32)
        requires
            old(self).wf(),
            old(self)@.contains(name@) || old(self)@.len() < MAX_INTERNED,
        ensures
            final(self).wf(),
            final(self)@ == after_intern(old(self)@, name@),
            id == intern_id(old(self)@, name@),
            id < final(self)@.len(),
            final(self)@[id as int] == name@,
    {
        proof {
            self.lemma_wf();
        }
        match self.map.get(name) {
            Some(found) => {
                let id = *found;
                proof {
                    assert(self@[id as int] == name@);
                    assert(self@.contains(name@));
                    let k = self@.index_of(name@);
                    assert(self@[k] == name@);
                }
                return id;
            },
            None => {},
        }
        proof {
            if self@.contains(name@) {
                let k = self@.index_of(name@);
                assert(self.map@.contains_key(self@[k]));
            }
        }
        let id = self.vec.len() as u32;
        let key = name.to_owned();
        self.vec.push(key.clone());
        self.map.insert(key, id);
        proof {
            assert(self@ =~= old(self)@.push(name@));
            assert forall|i: int| 0 <= i < self.vec@.len() implies self.map@.contains_key(
                #[trigger] self@[i],
            ) && self.map@[self@[i]] == i by {
                if i < old(self)@.len() {
                    assert(old(self).map@.contains_key(old(self)@[i]));
                }
            }
            assert forall|k: Seq<char>| #[trigger] self.map@.contains_key(k) implies self.map@[k]
                < self.vec@.len() && self@[self.map@[k] as int] == k by {
                if k != name@ {
                    assert(old(self).map@.contains_key(k));
                }
            }
        }
        id
    }

    /// Reverse lookup: the name that has index `id`, if any.
    pub fn lookup(&self, id: u32) -> (r: Option<&str>)
        ensures
            match r {
                Some(s) => id < self@.len() && s@ == self@[id as int],
                None => id >= self@.len(),
            },
    {
        let i = id as usize;
        if i < self.vec.len() {
            Some(self.vec[i].as_str())
        } else {
            None
        }
    }

    /// The index of `name`, if it has been interned.
    pub fn lookup_id(&self, name: &str) -> (r: Option<u32>)
        requires
            self.wf(),
        ensures
            match r {
                Some(id) => id < self@.len() && self@[id as int] == name@,
                None => !self@.contains(name@),
            },
    {
        match self.map.get(name) {
            Some(found) => Some(*found),
            None => {
                proof {
                    if self@.contains(name@) {
                        let k = self@.index_of(name@);
                        assert(self.map@.contains_key(self@[k]));
                    }
                }
                None
            },
        }
    }

    /// All interned names, by index.
    pub fn names(&self) -> (r: Vec<String>)
        ensures
            texts(r@) == self@,
    {
        let mut out: Vec<String> = Vec::new();
        let mut i: usize = 0;
        while i < self.vec.len()
            invariant
                i <= self.vec.len(),
                texts(out@) == self@.take(i as int),
            decreases self.vec.len() - i,
        {
            let ghost before = out@;
            out.push(self.vec[i].clone());
            proof {
                assert(texts(out@) =~= texts(before).push(self@[i as int]));
                assert(self@.take(i + 1) =~= self@.take(i as int).push(self@[i as int]));
            }
            i += 1;
        }
        proof {
            assert(self@.take(self.vec.len() as int) =~= self@);
        }
        out
    }

    /// Number of interned names.
    pub fn len(&self) -> (r: usize)
        ensures
            r == self@.len(),
    {
        self.vec.len()
    }

    /// Whether no name is interned.
    pub fn is_empty(&self) -> (r: bool)
        ensures
            r == (self@.len() == 0),
    {
        self.vec.len() == 0
    }
}

impl Default for Interner {
    /// An interner that holds no name.
    fn default() -> (r: Self)
        ensures
            r.wf(),
            r@ == Seq::<Seq<char>>::empty(),
    {
        Interner::new()
    }
}

} // verus!
