//! The graph topology index: nodes, tombstones and adjacency lists.

use crate::compact::{key_lt, strictly_sorted};
pub use crate::edge::{Direction, EdgeRecord};
use crate::error::GraphError;
use crate::interner::{lemma_intern_idempotent, Interner, MAX_INTERNED};
use crate::model::{tombstone_matching, total_len, GraphModel};
use crate::types::{TypeInterner, MAX_EDGE_TYPES};
use std::collections::HashSet;
use vstd::prelude::*;

verus! {

broadcast use vstd::std_specs::hash::group_hash_axioms;

/// The adjacency lists as sequences of sequences.
pub open spec fn lists_view(lists: Seq<Vec<EdgeRecord>>) -> Seq<Seq<EdgeRecord>> {
    lists.map_values(|l: Vec<EdgeRecord>| l@)
}

/// Whether every list is in the order of compacted lists.
pub open spec fn all_sorted(lists: Seq<Seq<EdgeRecord>>) -> bool {
    forall|u: int| 0 <= u < lists.len() ==> strictly_sorted(#[trigger] lists[u])
}

/// The first position of a compacted list from which on the records have a
/// type of at least `t`.
fn first_of_type(list: &Vec<EdgeRecord>, t: u8) -> (lo: usize)
    requires
        strictly_sorted(list@),
    ensures
        lo <= list.len(),
        forall|j: int| 0 <= j < lo ==> (#[trigger] list@[j]).type_id < t,
        forall|j: int| lo <= j < list@.len() ==> (#[trigger] list@[j]).type_id >= t,
{
    let mut lo: usize = 0;
    let mut hi: usize = list.len();
    while lo < hi
        invariant
            lo <= hi <= list.len(),
            strictly_sorted(list@),
            forall|j: int| 0 <= j < lo ==> (#[trigger] list@[j]).type_id < t,
            forall|j: int| hi <= j < list@.len() ==> (#[trigger] list@[j]).type_id >= t,
        decreases hi - lo,
    {
        let mid = lo + (hi - lo) / 2;
        if list[mid].type_id < t {
            proof {
                assert forall|j: int| 0 <= j < mid + 1 implies (#[trigger] list@[j]).type_id < t by {
                    if j < mid {
                        assert(key_lt(list@[j], list@[mid as int]));
                    }
                }
            }
            lo = mid + 1;
        } else {
            proof {
                assert forall|j: int| mid <= j < list@.len() implies (#[trigger] list@[j]).type_id
                    >= t by {
                    if j > mid {
                        assert(key_lt(list@[mid as int], list@[j]));
                    }
                }
            }
            hi = mid;
        }
    }
    lo
}

/// Sets the tombstone of every record of `list` that names `peer` with type
/// `ty`.
fn tombstone_list(list: &mut Vec<EdgeRecord>, peer: u32, ty: u8)
    ensures
        final(list)@ == tombstone_matching(old(list)@, peer, ty),
{
    let mut i: usize = 0;
    while i < list.len()
        invariant
            i <= list.len(),
            list@.len() == old(list)@.len(),
            forall|j: int| 0 <= j < i ==> list@[j] == tombstone_matching(old(list)@, peer, ty)[j],
            forall|j: int| i <= j < list@.len() ==> list@[j] == old(list)@[j],
        decreases list.len() - i,
    {
        let r = list[i];
        if r.peer == peer && r.type_id == ty {
            list.set(
                i,
                EdgeRecord {
                    peer: r.peer,
                    type_id: r.type_id,
                    valid_from: r.valid_from,
                    valid_to: r.valid_to,
                    deleted: true,
                },
            );
        }
        i += 1;
    }
    assert(list@ =~= tombstone_matching(old(list)@, peer, ty));
}

/// An in-memory temporal property graph: interned node and edge-type names,
/// per-node tombstones, and for each node the records of its outgoing and of
/// its incoming edges. It remembers whether its lists are in compacted
/// order, and then finds the records of one edge type by binary search.
pub struct GraphIndex {
    pub(crate) nodes: Interner,
    pub(crate) types: TypeInterner,
    pub(crate) node_deleted: Vec<bool>,
    pub(crate) outgoing: Vec<Vec<EdgeRecord>>,
    pub(crate) incoming: Vec<Vec<EdgeRecord>>,
    pub(crate) sorted: bool,
}

impl View for GraphIndex {
    type V = GraphModel;

    closed spec fn view(&self) -> GraphModel {
        GraphModel {
            nodes: self.nodes@,
            types: self.types@,
            deleted: self.node_deleted@,
            outgoing: lists_view(self.outgoing@),
            incoming: lists_view(self.incoming@),
        }
    }
}

impl GraphIndex {
    /// The interners are sound, the model's invariant holds, and the lists
    /// are in compacted order where the index says so.
    pub closed spec fn wf(&self) -> bool {
        &&& self.nodes.wf()
        &&& self.types.wf()
        &&& self@.wf()
        &&& self.sorted ==> all_sorted(self@.outgoing) && all_sorted(self@.incoming)
    }

    /// What the view and the invariant are made of.
    pub(crate) proof fn lemma_repr(&self)
        ensures
            self@ == (GraphModel {
                nodes: self.nodes@,
                types: self.types@,
                deleted: self.node_deleted@,
                outgoing: lists_view(self.outgoing@),
                incoming: lists_view(self.incoming@),
            }),
            self.wf() == (self.nodes.wf() && self.types.wf() && self@.wf() && (self.sorted
                ==> all_sorted(self@.outgoing) && all_sorted(self@.incoming))),
    {
    }

    /// A well-formed index has a well-formed model.
    pub proof fn lemma_wf(&self)
        requires
            self.wf(),
        ensures
            self@.wf(),
    {
    }

    /// An empty index.
    pub fn new() -> (r: Self)
        ensures
            r.wf(),
            r@.nodes.len() == 0,
            r@.types.len() == 0,
            r@.deleted.len() == 0,
            r@.outgoing.len() == 0,
            r@.incoming.len() == 0,
    {
        GraphIndex {
            nodes: Interner::new(),
            types: TypeInterner::new(),
            node_deleted: Vec::new(),
            outgoing: Vec::new(),
            incoming: Vec::new(),
            sorted: true,
        }
    }

    /// Number of nodes ever created, tombstoned ones included.
    pub fn node_count(&self) -> (r: usize)
        ensures
            r == self@.nodes.len(),
    {
        self.nodes.len()
    }

    /// The index of the node named `name`, if there is one.
    pub fn lookup_id(&self, name: &str) -> (r: Option<u32>)
        requires
            self.wf(),
        ensures
            match r {
                Some(id) => id < self@.nodes.len() && self@.nodes[id as int] == name@,
                None => !self@.nodes.contains(name@),
            },
    {
        self.nodes.lookup_id(name)
    }

    /// The name of node `id`, if there is such a node.
    pub fn lookup_str(&self, id: u32) -> (r: Option<&str>)
        ensures
            match r {
                Some(s) => id < self@.nodes.len() && s@ == self@.nodes[id as int],
                None => id >= self@.nodes.len(),
            },
    {
        self.nodes.lookup(id)
    }

    /// The index of the edge type labelled `name`, if there is one.
    pub fn get_type_id(&self, name: &str) -> (r: Option<u8>)
        requires
            self.wf(),
        ensures
            match r {
                Some(id) => id < self@.types.len() && self@.types[id as int] == name@,
                None => !self@.types.contains(name@),
            },
    {
        self.types.lookup_id(name)
    }

    /// Whether node `id` is tombstoned. A node that does not exist counts as
    /// tombstoned.
    pub fn is_node_deleted(&self, id: u32) -> (r: bool)
        ensures
            r == !self@.live(id as int),
    {
        let u = id as usize;
        if u < self.node_deleted.len() {
            self.node_deleted[u]
        } else {
            true
        }
    }

    /// The live nodes that `node` reaches over one admitted edge of type
    /// `type_id` on side `dir`, each once, in the order of the adjacency list.
    pub fn get_neighbors(&self, node: u32, type_id: u8, dir: Direction, as_of: Option<i64>) -> (r:
        Vec<u32>)
        requires
            self.wf(),
        ensures
            r@ == self@.neighbors(node as int, Some(type_id), dir, as_of),
    {
        self.neighbors_of(node, Some(type_id), dir, as_of)
    }

    /// As `get_neighbors`, over every edge type where `ty` is absent.
    pub fn neighbors_of(&self, node: u32, ty: Option<u8>, dir: Direction, as_of: Option<i64>) -> (r:
        Vec<u32>)
        requires
            self.wf(),
        ensures
            r@ == self@.neighbors(node as int, ty, dir, as_of),
    {
        let mut out: Vec<u32> = Vec::new();
        if self.is_node_deleted(node) {
            return out;
        }
        let u = node as usize;
        let list = match dir {
            Direction::Outgoing => &self.outgoing[u],
            Direction::Incoming => &self.incoming[u],
        };
        assert(list@ == self@.adj(dir)[u as int]);
        let (lo, hi) = match ty {
            Some(t) => if self.sorted {
                let first = first_of_type(list, t);
                let end = if t == u8::MAX {
                    list.len()
                } else {
                    first_of_type(list, t + 1)
                };
                if first <= end {
                    (first, end)
                } else {
                    (first, first)
                }
            } else {
                (0, list.len())
            },
            None => (0, list.len()),
        };
        proof {
            self@.lemma_peers_skip(list@, ty, as_of, 0, lo as int);
            self@.lemma_peers_skip(list@, ty, as_of, hi as int, list@.len() as int);
            assert(list@.take(0) =~= Seq::<EdgeRecord>::empty());
            assert(list@.take(list@.len() as int) =~= list@);
        }
        let mut seen: HashSet<u32> = HashSet::new();
        let mut i: usize = lo;
        while i < hi
            invariant
                lo <= i <= hi <= list.len(),
                out@ == self@.peers(list@.take(i as int), ty, as_of),
                forall|v: u32| seen@.contains(v) <==> out@.contains(v),
            decreases hi - i,
        {
            let r = &list[i];
            proof {
                assert(list@.take(i + 1).drop_last() =~= list@.take(i as int));
                assert(list@.take(i + 1).last() == *r);
            }
            if r.is_visible(as_of) && r.is_of_type(ty) && !self.is_node_deleted(r.peer)
                && !seen.contains(&r.peer) {
                let ghost before = out@;
                seen.insert(r.peer);
                out.push(r.peer);
                proof {
                    assert forall|v: u32| seen@.contains(v) <==> out@.contains(v) by {
                        if before.contains(v) {
                            let k = choose|k: int| 0 <= k < before.len() && before[k] == v;
                            assert(out@[k] == v);
                        }
                        if v == r.peer {
                            assert(out@[before.len() as int] == v);
                        }
                    }
                }
            }
            i += 1;
        }
        out
    }

    /// Number of logical edges: every record counts once, tombstoned ones
    /// included until compaction drops them. A count beyond `usize` is
    /// reported as `usize::MAX`.
    pub fn edge_count(&self) -> (r: usize)
        ensures
            r == if self@.edge_count() <= usize::MAX {
                self@.edge_count()
            } else {
                usize::MAX as nat
            },
    {
        let mut total: usize = 0;
        let mut u: usize = 0;
        let ghost lists = self@.outgoing;
        while u < self.outgoing.len()
            invariant
                u <= self.outgoing.len(),
                lists == lists_view(self.outgoing@),
                total == if total_len(lists.take(u as int)) <= usize::MAX {
                    total_len(lists.take(u as int))
                } else {
                    usize::MAX as nat
                },
            decreases self.outgoing.len() - u,
        {
            proof {
                assert(lists.take(u + 1).drop_last() =~= lists.take(u as int));
                assert(lists.take(u + 1).last() == self.outgoing@[u as int]@);
            }
            total = total.saturating_add(self.outgoing[u].len());
            u += 1;
        }
        proof {
            assert(lists.take(self.outgoing.len() as int) =~= lists);
        }
        total
    }

    /// The index of the node named `ext_id`, which is created if it is new
    /// and loses its tombstone if it has one. Fails, and changes nothing,
    /// when the node is new and every `u32` index is taken.
    pub fn get_or_create_node(&mut self, ext_id: &str) -> (r: Result<u32, GraphError>)
        requires
            old(self).wf(),
        ensures
            final(self).wf(),
            match r {
                Ok(id) => {
                    &&& old(self)@.nodes.contains(ext_id@) || old(self)@.nodes.len() < MAX_INTERNED
                    &&& final(self)@ == old(self)@.with_node(ext_id@)
                    &&& id < final(self)@.nodes.len()
                    &&& final(self)@.nodes[id as int] == ext_id@
                },
                Err(e) => {
                    &&& e == GraphError::TooManyNodes
                    &&& !old(self)@.nodes.contains(ext_id@)
                    &&& old(self)@.nodes.len() >= MAX_INTERNED
                    &&& final(self)@ == old(self)@
                },
            },
    {
        proof {
            self.nodes.lemma_wf();
        }
        match self.nodes.lookup_id(ext_id) {
            Some(id) => {
                proof {
                    assert(self@.nodes.contains(ext_id@));
                    let k = self@.nodes.index_of(ext_id@);
                    assert(self@.nodes[k] == ext_id@);
                    old(self)@.lemma_with_node_wf(ext_id@);
                }
                self.node_deleted.set(id as usize, false);
                Ok(id)
            },
            None => {
                if self.nodes.len() as u64 >= MAX_INTERNED {
                    return Err(GraphError::TooManyNodes);
                }
                proof {
                    old(self)@.lemma_with_node_wf(ext_id@);
                }
                let id = self.nodes.intern(ext_id);
                self.node_deleted.push(false);
                self.outgoing.push(Vec::new());
                self.incoming.push(Vec::new());
                proof {
                    assert(self@.outgoing =~= old(self)@.outgoing.push(Seq::empty()));
                    assert(self@.incoming =~= old(self)@.incoming.push(Seq::empty()));
                    if self.sorted {
                        assert forall|w: int| 0 <= w < self@.outgoing.len() implies strictly_sorted(
                            #[trigger] self@.outgoing[w],
                        ) by {
                            if w < old(self)@.outgoing.len() {
                                assert(strictly_sorted(old(self)@.outgoing[w]));
                            }
                        }
                        assert forall|w: int| 0 <= w < self@.incoming.len() implies strictly_sorted(
                            #[trigger] self@.incoming[w],
                        ) by {
                            if w < old(self)@.incoming.len() {
                                assert(strictly_sorted(old(self)@.incoming[w]));
                            }
                        }
                    }
                }
                Ok(id)
            },
        }
    }

    /// Adds the edge from `src` to `tgt` with label `label`, valid in
    /// `[valid_from, valid_to)`: interns the three names and appends a live
    /// record on both sides. Duplicates are kept until compaction. Fails, and
    /// changes nothing, when the nodes or the edge type that it would have to
    /// create do not fit.
    pub fn add_edge(
        &mut self,
        src: &str,
        tgt: &str,
        label: &str,
        valid_from: Option<i64>,
        valid_to: Option<i64>,
    ) -> (r: Result<(), GraphError>)
        requires
            old(self).wf(),
        ensures
            final(self).wf(),
            match r {
                Ok(()) => {
                    &&& old(self)@.add_edge_error(src@, tgt@, label@) is None
                    &&& final(self)@ == old(self)@.with_edge(src@, tgt@, label@, valid_from, valid_to)
                },
                Err(e) => {
                    &&& old(self)@.add_edge_error(src@, tgt@, label@) == Some(e)
                    &&& final(self)@ == old(self)@
                },
            },
    {
        let ghost m0 = self@;
        proof {
            self.nodes.lemma_wf();
            self.types.lemma_wf();
        }
        let src_known = self.nodes.lookup_id(src).is_some();
        let tgt_known = self.nodes.lookup_id(tgt).is_some();
        let mut need: u64 = 0;
        if !src_known {
            need = need + 1;
        }
        if !tgt_known {
            if src_known {
                need = need + 1;
            } else if !(src.to_owned() == tgt.to_owned()) {
                need = need + 1;
            }
        }
        proof {
            let m1 = m0.with_node(src@);
            assert(m1.with_node(tgt@).nodes.len() == m0.nodes.len() + need) by {
                if m0.nodes.contains(tgt@) {
                    let k = m0.nodes.index_of(tgt@);
                    assert(m0.nodes[k] == tgt@);
                    assert(m1.nodes[k] == tgt@);
                }
                if m1.nodes.contains(tgt@) && !m0.nodes.contains(tgt@) {
                    let k = m1.nodes.index_of(tgt@);
                    assert(m1.nodes[k] == tgt@);
                    if k < m0.nodes.len() {
                        assert(m0.nodes[k] == tgt@);
                    }
                }
                if !m0.nodes.contains(src@) && src@ == tgt@ {
                    assert(m1.nodes[m0.nodes.len() as int] == tgt@);
                }
            }
        }
        if self.nodes.len() as u64 + need > MAX_INTERNED {
            return Err(GraphError::TooManyNodes);
        }
        if self.types.lookup_id(label).is_none() && self.types.len() >= MAX_EDGE_TYPES {
            return Err(GraphError::TooManyEdgeTypes);
        }
        let s = match self.get_or_create_node(src) {
            Ok(id) => id,
            Err(e) => {
                return Err(e);
            },
        };
        let ghost m1 = self@;
        let t = match self.get_or_create_node(tgt) {
            Ok(id) => id,
            Err(e) => {
                proof {
                    assert(false);
                }
                return Err(e);
            },
        };
        let ghost m2 = self@;
        let k = match self.types.intern(label) {
            Ok(id) => id,
            Err(e) => {
                proof {
                    assert(false);
                }
                return Err(e);
            },
        };
        let ghost m3 = self@;
        proof {
            assert(m3 == m2.with_type(label@));
            lemma_intern_idempotent(m2.types, label@);
            assert(m3.wf()) by {
                assert forall|dir: Direction| #[trigger] m3.mirrored(dir) by {
                    assert(m2.mirrored(dir));
                }
            }
            assert(m3.nodes[s as int] == src@) by {
                if m1.nodes.contains(tgt@) {
                } else {
                    assert(m2.nodes[s as int] == m1.nodes[s as int]);
                }
            }
            assert(m3.nodes.contains(src@));
            assert(m3.nodes.contains(tgt@));
            assert(m3.nodes.index_of(src@) == s);
            assert(m3.nodes.index_of(tgt@) == t);
            assert(m3.types.contains(label@));
            assert(m3.types.index_of(label@) == k);
            m3.lemma_with_record_wf(s as int, t as int, k as int, valid_from, valid_to);
        }
        self.sorted = false;
        self.outgoing[s as usize].push(EdgeRecord::new(t, k, valid_from, valid_to));
        self.incoming[t as usize].push(EdgeRecord::new(s, k, valid_from, valid_to));
        proof {
            let m4 = m3.with_record(s as int, t as int, k as int, valid_from, valid_to);
            assert(self@.outgoing =~= m4.outgoing);
            assert(self@.incoming =~= m4.incoming);
        }
        Ok(())
    }

    /// Tombstones the node named `ext_id`. Its edges stay in place and are
    /// filtered on read. An unknown name changes nothing.
    pub fn remove_node(&mut self, ext_id: &str)
        requires
            old(self).wf(),
        ensures
            final(self).wf(),
            final(self)@ == old(self)@.without_node(ext_id@),
    {
        proof {
            self.nodes.lemma_wf();
            old(self)@.lemma_without_node_wf(ext_id@);
        }
        match self.nodes.lookup_id(ext_id) {
            Some(id) => {
                proof {
                    assert(self@.nodes.contains(ext_id@));
                    let k = self@.nodes.index_of(ext_id@);
                    assert(self@.nodes[k] == ext_id@);
                }
                self.node_deleted.set(id as usize, true);
            },
            None => {},
        }
    }

    /// Tombstones, on both sides, every record of the edge from `src` to
    /// `tgt` with label `label`: all its temporal versions. Where one of the
    /// names is unknown, nothing changes.
    pub fn remove_edge(&mut self, src: &str, tgt: &str, label: &str)
        requires
            old(self).wf(),
        ensures
            final(self).wf(),
            final(self)@ == old(self)@.without_edge(src@, tgt@, label@),
    {
        proof {
            self.nodes.lemma_wf();
            self.types.lemma_wf();
        }
        let s = match self.nodes.lookup_id(src) {
            Some(id) => id,
            None => {
                return ;
            },
        };
        let t = match self.nodes.lookup_id(tgt) {
            Some(id) => id,
            None => {
                return ;
            },
        };
        let k = match self.types.lookup_id(label) {
            Some(id) => id,
            None => {
                return ;
            },
        };
        proof {
            let m = self@;
            assert(m.nodes.contains(src@) && m.nodes.contains(tgt@) && m.types.contains(label@));
            assert(m.nodes[m.nodes.index_of(src@)] == src@);
            assert(m.nodes[m.nodes.index_of(tgt@)] == tgt@);
            assert(m.types[m.types.index_of(label@)] == label@);
            m.lemma_with_tombstones_wf(s as int, t as int, k);
        }
        self.sorted = false;
        tombstone_list(&mut self.outgoing[s as usize], t, k);
        tombstone_list(&mut self.incoming[t as usize], s, k);
        proof {
            let g = old(self)@.with_tombstones(s as int, t as int, k);
            assert(self@.outgoing =~= g.outgoing);
            assert(self@.incoming =~= g.incoming);
        }
    }
}

} // verus!
