//! The mathematical model of the index, over which its contracts are stated.

use crate::edge::{Direction, EdgeRecord};
use crate::error::GraphError;
use crate::interner::{after_intern, lemma_intern_idempotent, MAX_INTERNED};
use crate::types::MAX_EDGE_TYPES;
use vstd::prelude::*;

verus! {

/// What an index holds: the node names and edge-type labels by index, the
/// nodes' tombstones, and each node's two adjacency lists.
pub struct GraphModel {
    pub nodes: Seq<Seq<char>>,
    pub types: Seq<Seq<char>>,
    pub deleted: Seq<bool>,
    pub outgoing: Seq<Seq<EdgeRecord>>,
    pub incoming: Seq<Seq<EdgeRecord>>,
}

/// The sum of the lengths of `lists`.
pub open spec fn total_len(lists: Seq<Seq<EdgeRecord>>) -> nat
    decreases lists.len(),
{
    if lists.len() == 0 {
        0
    } else {
        total_len(lists.drop_last()) + lists.last().len()
    }
}

/// `list` with a tombstone on every record that names `peer` with type `ty`.
pub open spec fn tombstone_matching(list: Seq<EdgeRecord>, peer: u32, ty: u8) -> Seq<EdgeRecord> {
    list.map_values(
        |r: EdgeRecord|
            if r.peer == peer && r.type_id == ty {
                r.tombstoned()
            } else {
                r
            },
    )
}

impl GraphModel {
    /// The adjacency lists on one side.
    pub open spec fn adj(self, dir: Direction) -> Seq<Seq<EdgeRecord>> {
        match dir {
            Direction::Outgoing => self.outgoing,
            Direction::Incoming => self.incoming,
        }
    }

    /// Every record on side `dir` names a known peer and type, and the peer
    /// holds the same record, pointing back, on the other side.
    pub open spec fn mirrored(self, dir: Direction) -> bool {
        forall|u: int, i: int|
            0 <= u < self.adj(dir).len() && 0 <= i < self.adj(dir)[u].len() ==> {
                &&& (#[trigger] self.adj(dir)[u][i]).peer < self.nodes.len()
                &&& self.adj(dir)[u][i].type_id < self.types.len()
                &&& self.adj(dir.spec_flip())[self.adj(dir)[u][i].peer as int].contains(
                    self.adj(dir)[u][i].mirror(u),
                )
            }
    }

    /// The invariant of the index.
    pub open spec fn wf(self) -> bool {
        &&& self.nodes.no_duplicates()
        &&& self.nodes.len() <= MAX_INTERNED
        &&& self.types.no_duplicates()
        &&& self.types.len() <= MAX_EDGE_TYPES
        &&& self.deleted.len() == self.nodes.len()
        &&& self.outgoing.len() == self.nodes.len()
        &&& self.incoming.len() == self.nodes.len()
        &&& self.mirrored(Direction::Outgoing)
        &&& self.mirrored(Direction::Incoming)
    }

    /// The two sides are mirror images: a record in the outgoing list of `u`
    /// that names `v` stands, pointing back at `u`, in the incoming list of
    /// `v`, and the other way round.
    pub proof fn lemma_mirror_images(self, u: int, r: EdgeRecord)
        requires
            self.wf(),
            0 <= u < self.nodes.len(),
        ensures
            self.outgoing[u].contains(r) ==> r.peer < self.nodes.len() && self.incoming[r.peer as int].contains(
                r.mirror(u),
            ),
            self.incoming[u].contains(r) ==> r.peer < self.nodes.len() && self.outgoing[r.peer as int].contains(
                r.mirror(u),
            ),
    {
        if self.outgoing[u].contains(r) {
            let i = choose|i: int| 0 <= i < self.outgoing[u].len() && self.outgoing[u][i] == r;
            assert(self.mirrored(Direction::Outgoing));
            assert(self.adj(Direction::Outgoing)[u][i] == r);
        }
        if self.incoming[u].contains(r) {
            let i = choose|i: int| 0 <= i < self.incoming[u].len() && self.incoming[u][i] == r;
            assert(self.mirrored(Direction::Incoming));
            assert(self.adj(Direction::Incoming)[u][i] == r);
        }
    }

    /// The node exists and carries no tombstone.
    pub open spec fn live(self, v: int) -> bool {
        0 <= v < self.deleted.len() && !self.deleted[v]
    }

    /// The number of logical edges: each is counted once, at its source.
    pub open spec fn edge_count(self) -> nat {
        total_len(self.outgoing)
    }

    /// Whether a query for type `ty` at `as_of` admits the record: it is
    /// visible, of that type, and its peer is live.
    pub open spec fn passes(self, r: EdgeRecord, ty: Option<u8>, as_of: Option<i64>) -> bool {
        r.visible(as_of) && r.has_type(ty) && self.live(r.peer as int)
    }

    /// The peers of the admitted records of `list`, each once, in the order
    /// in which the list first names them.
    pub open spec fn peers(self, list: Seq<EdgeRecord>, ty: Option<u8>, as_of: Option<i64>) -> Seq<
        u32,
    >
        decreases list.len(),
    {
        if list.len() == 0 {
            Seq::empty()
        } else {
            let before = self.peers(list.drop_last(), ty, as_of);
            let r = list.last();
            if self.passes(r, ty, as_of) && !before.contains(r.peer) {
                before.push(r.peer)
            } else {
                before
            }
        }
    }

    /// The neighbours of `u` on side `dir`: nothing for a node that is
    /// unknown or tombstoned.
    pub open spec fn neighbors(self, u: int, ty: Option<u8>, dir: Direction, as_of: Option<i64>) -> Seq<
        u32,
    > {
        if self.live(u) && u < self.adj(dir).len() {
            self.peers(self.adj(dir)[u], ty, as_of)
        } else {
            Seq::empty()
        }
    }

    /// An admitted record on side `dir` of the live node `u` names `v`.
    pub open spec fn linked(
        self,
        u: int,
        v: u32,
        ty: Option<u8>,
        dir: Direction,
        as_of: Option<i64>,
    ) -> bool {
        &&& self.live(u)
        &&& u < self.adj(dir).len()
        &&& exists|i: int|
            0 <= i < self.adj(dir)[u].len() && (#[trigger] self.adj(dir)[u][i]).peer == v
                && self.passes(self.adj(dir)[u][i], ty, as_of)
    }

    /// A stretch of records of which none is admitted adds no peer.
    pub proof fn lemma_peers_skip(
        self,
        list: Seq<EdgeRecord>,
        ty: Option<u8>,
        as_of: Option<i64>,
        i: int,
        j: int,
    )
        requires
            0 <= i <= j <= list.len(),
            forall|k: int| i <= k < j ==> !self.passes(#[trigger] list[k], ty, as_of),
        ensures
            self.peers(list.take(j), ty, as_of) == self.peers(list.take(i), ty, as_of),
        decreases j - i,
    {
        if i < j {
            self.lemma_peers_skip(list, ty, as_of, i, j - 1);
            assert(list.take(j).drop_last() =~= list.take(j - 1));
            assert(list.take(j).last() == list[j - 1]);
        }
    }

    /// `peers` names exactly the peers of the admitted records, each once.
    pub proof fn lemma_peers(self, list: Seq<EdgeRecord>, ty: Option<u8>, as_of: Option<i64>)
        ensures
            self.peers(list, ty, as_of).no_duplicates(),
            forall|v: u32|
                self.peers(list, ty, as_of).contains(v) <==> exists|i: int|
                    0 <= i < list.len() && (#[trigger] list[i]).peer == v && self.passes(
                        list[i],
                        ty,
                        as_of,
                    ),
        decreases list.len(),
    {
        if list.len() > 0 {
            let init = list.drop_last();
            let before = self.peers(init, ty, as_of);
            let now = self.peers(list, ty, as_of);
            let r = list.last();
            self.lemma_peers(init, ty, as_of);
            assert forall|v: u32| now.contains(v) implies exists|i: int|
                0 <= i < list.len() && (#[trigger] list[i]).peer == v && self.passes(
                    list[i],
                    ty,
                    as_of,
                ) by {
                let k = choose|k: int| 0 <= k < now.len() && now[k] == v;
                if k < before.len() {
                    assert(before[k] == v);
                    assert(before.contains(v));
                    let i = choose|i: int|
                        0 <= i < init.len() && (#[trigger] init[i]).peer == v && self.passes(
                            init[i],
                            ty,
                            as_of,
                        );
                    assert(list[i] == init[i]);
                } else {
                    assert(list[list.len() - 1] == r);
                }
            }
            assert forall|v: u32|
                (exists|i: int|
                    0 <= i < list.len() && (#[trigger] list[i]).peer == v && self.passes(
                        list[i],
                        ty,
                        as_of,
                    )) implies now.contains(v) by {
                let i = choose|i: int|
                    0 <= i < list.len() && (#[trigger] list[i]).peer == v && self.passes(
                        list[i],
                        ty,
                        as_of,
                    );
                if i < init.len() {
                    assert(init[i] == list[i]);
                    assert(before.contains(v));
                    let k = choose|k: int| 0 <= k < before.len() && before[k] == v;
                    assert(now[k] == v);
                } else {
                    if before.contains(v) {
                        let k = choose|k: int| 0 <= k < before.len() && before[k] == v;
                        assert(now[k] == v);
                    } else {
                        assert(now[before.len() as int] == v);
                    }
                }
            }
        }
    }

    /// An edge seen from one end is the same edge seen from the other: `u` is
    /// linked to `v` on one side exactly if `v` is linked to `u` on the other.
    pub proof fn lemma_linked_flip(
        self,
        u: u32,
        v: u32,
        ty: Option<u8>,
        dir: Direction,
        as_of: Option<i64>,
    )
        requires
            self.wf(),
        ensures
            self.linked(u as int, v, ty, dir, as_of) == self.linked(
                v as int,
                u,
                ty,
                dir.spec_flip(),
                as_of,
            ),
    {
        if self.linked(u as int, v, ty, dir, as_of) {
            self.lemma_linked_one_way(u, v, ty, dir, as_of);
        }
        if self.linked(v as int, u, ty, dir.spec_flip(), as_of) {
            self.lemma_linked_one_way(v, u, ty, dir.spec_flip(), as_of);
            assert(dir.spec_flip().spec_flip() == dir);
        }
    }

    /// One direction of `lemma_linked_flip`.
    proof fn lemma_linked_one_way(
        self,
        u: u32,
        v: u32,
        ty: Option<u8>,
        dir: Direction,
        as_of: Option<i64>,
    )
        requires
            self.wf(),
            self.linked(u as int, v, ty, dir, as_of),
        ensures
            self.linked(v as int, u, ty, dir.spec_flip(), as_of),
    {
        let back = dir.spec_flip();
        let i = choose|i: int|
            0 <= i < self.adj(dir)[u as int].len() && (#[trigger] self.adj(dir)[u as int][i]).peer
                == v && self.passes(self.adj(dir)[u as int][i], ty, as_of);
        let r = self.adj(dir)[u as int][i];
        assert(self.mirrored(dir));
        assert(self.adj(back)[v as int].contains(r.mirror(u as int)));
        let j = choose|j: int|
            0 <= j < self.adj(back)[v as int].len() && self.adj(back)[v as int][j] == r.mirror(
                u as int,
            );
        assert(self.adj(back)[v as int][j].peer == u);
        assert(self.passes(self.adj(back)[v as int][j], ty, as_of));
    }

    /// `neighbors` names exactly the nodes that `u` is linked to, each once.
    pub proof fn lemma_neighbors(self, u: int, ty: Option<u8>, dir: Direction, as_of: Option<i64>)
        ensures
            self.neighbors(u, ty, dir, as_of).no_duplicates(),
            forall|v: u32|
                self.neighbors(u, ty, dir, as_of).contains(v) <==> self.linked(u, v, ty, dir, as_of),
    {
        if self.live(u) && u < self.adj(dir).len() {
            self.lemma_peers(self.adj(dir)[u], ty, as_of);
        }
    }

    /// The model after the node `name` was asked for: a new node is
    /// appended with empty lists, a known one loses its tombstone.
    pub open spec fn with_node(self, name: Seq<char>) -> GraphModel {
        if self.nodes.contains(name) {
            GraphModel { deleted: self.deleted.update(self.nodes.index_of(name), false), ..self }
        } else {
            GraphModel {
                nodes: self.nodes.push(name),
                deleted: self.deleted.push(false),
                outgoing: self.outgoing.push(Seq::empty()),
                incoming: self.incoming.push(Seq::empty()),
                ..self
            }
        }
    }

    /// The model after the edge type `label` was asked for.
    pub open spec fn with_type(self, label: Seq<char>) -> GraphModel {
        GraphModel { types: after_intern(self.types, label), ..self }
    }

    /// The model after a live record of the edge from `s` to `t` was
    /// appended on both sides.
    pub open spec fn with_record(
        self,
        s: int,
        t: int,
        ty: int,
        valid_from: Option<i64>,
        valid_to: Option<i64>,
    ) -> GraphModel {
        let forth = EdgeRecord {
            peer: t as u32,
            type_id: ty as u8,
            valid_from,
            valid_to,
            deleted: false,
        };
        let back = EdgeRecord { peer: s as u32, ..forth };
        GraphModel {
            outgoing: self.outgoing.update(s, self.outgoing[s].push(forth)),
            incoming: self.incoming.update(t, self.incoming[t].push(back)),
            ..self
        }
    }

    /// The model after `add_edge`: the three names are interned, then the
    /// record is appended on both sides.
    pub open spec fn with_edge(
        self,
        src: Seq<char>,
        tgt: Seq<char>,
        label: Seq<char>,
        valid_from: Option<i64>,
        valid_to: Option<i64>,
    ) -> GraphModel {
        let g = self.with_node(src).with_node(tgt).with_type(label);
        g.with_record(
            g.nodes.index_of(src),
            g.nodes.index_of(tgt),
            g.types.index_of(label),
            valid_from,
            valid_to,
        )
    }

    /// Why `add_edge` would fail, if it would: the nodes or the edge types
    /// that it has to create do not fit.
    pub open spec fn add_edge_error(self, src: Seq<char>, tgt: Seq<char>, label: Seq<char>) -> Option<
        GraphError,
    > {
        if self.with_node(src).with_node(tgt).nodes.len() > MAX_INTERNED {
            Some(GraphError::TooManyNodes)
        } else if !self.types.contains(label) && self.types.len() >= MAX_EDGE_TYPES {
            Some(GraphError::TooManyEdgeTypes)
        } else {
            None
        }
    }

    /// The model after `remove_node`: a known node gets its tombstone, its
    /// edges stay; an unknown name changes nothing.
    pub open spec fn without_node(self, name: Seq<char>) -> GraphModel {
        if self.nodes.contains(name) {
            GraphModel { deleted: self.deleted.update(self.nodes.index_of(name), true), ..self }
        } else {
            self
        }
    }

    /// The model after every record of type `ty` from `s` to `t` got its
    /// tombstone, on both sides.
    pub open spec fn with_tombstones(self, s: int, t: int, ty: u8) -> GraphModel {
        GraphModel {
            outgoing: self.outgoing.update(s, tombstone_matching(self.outgoing[s], t as u32, ty)),
            incoming: self.incoming.update(t, tombstone_matching(self.incoming[t], s as u32, ty)),
            ..self
        }
    }

    /// The model after `remove_edge`: every temporal version of the edge is
    /// tombstoned on both sides; an unknown name changes nothing.
    pub open spec fn without_edge(self, src: Seq<char>, tgt: Seq<char>, label: Seq<char>) -> GraphModel {
        if self.nodes.contains(src) && self.nodes.contains(tgt) && self.types.contains(label) {
            self.with_tombstones(
                self.nodes.index_of(src),
                self.nodes.index_of(tgt),
                self.types.index_of(label) as u8,
            )
        } else {
            self
        }
    }

    /// Asking for a node keeps the invariant.
    pub proof fn lemma_with_node_wf(self, name: Seq<char>)
        requires
            self.wf(),
            self.nodes.contains(name) || self.nodes.len() < MAX_INTERNED,
        ensures
            self.with_node(name).wf(),
    {
        let g = self.with_node(name);
        lemma_intern_idempotent(self.nodes, name);
        if !self.nodes.contains(name) {
            assert(g.nodes == after_intern(self.nodes, name));
            assert forall|dir: Direction| #[trigger] g.mirrored(dir) by {
                assert(self.mirrored(dir));
                assert(g.adj(dir) == self.adj(dir).push(Seq::empty()));
                assert(g.adj(dir.spec_flip()) == self.adj(dir.spec_flip()).push(Seq::empty()));
                assert forall|u: int, i: int|
                    0 <= u < g.adj(dir).len() && 0 <= i < g.adj(dir)[u].len() implies {
                    &&& (#[trigger] g.adj(dir)[u][i]).peer < g.nodes.len()
                    &&& g.adj(dir)[u][i].type_id < g.types.len()
                    &&& g.adj(dir.spec_flip())[g.adj(dir)[u][i].peer as int].contains(
                        g.adj(dir)[u][i].mirror(u),
                    )
                } by {
                    assert(u < self.adj(dir).len());
                    let r = self.adj(dir)[u][i];
                    assert(g.adj(dir)[u][i] == r);
                    assert(g.adj(dir.spec_flip())[r.peer as int] == self.adj(dir.spec_flip())[r.peer as int]);
                }
            }
        } else {
            assert forall|dir: Direction| #[trigger] g.mirrored(dir) by {
                assert(self.mirrored(dir));
            }
        }
    }

    /// Appending an edge between known nodes keeps the invariant.
    pub proof fn lemma_with_record_wf(
        self,
        s: int,
        t: int,
        ty: int,
        valid_from: Option<i64>,
        valid_to: Option<i64>,
    )
        requires
            self.wf(),
            0 <= s < self.nodes.len(),
            0 <= t < self.nodes.len(),
            0 <= ty < self.types.len(),
        ensures
            self.with_record(s, t, ty, valid_from, valid_to).wf(),
    {
        let g = self.with_record(s, t, ty, valid_from, valid_to);
        let forth = EdgeRecord {
            peer: t as u32,
            type_id: ty as u8,
            valid_from,
            valid_to,
            deleted: false,
        };
        let back = EdgeRecord { peer: s as u32, ..forth };
        assert(forth.mirror(s) == back);
        assert(back.mirror(t) == forth);
        self.lemma_appended_mirrored(g, Direction::Outgoing, s, t, forth);
        self.lemma_appended_mirrored(g, Direction::Incoming, t, s, back);
    }

    /// After a record and its mirror image were appended, side `dir` is
    /// mirrored.
    proof fn lemma_appended_mirrored(self, g: GraphModel, dir: Direction, a: int, b: int, r: EdgeRecord)
        requires
            self.wf(),
            0 <= a < self.nodes.len(),
            0 <= b < self.nodes.len(),
            r.peer == b,
            r.type_id < self.types.len(),
            g.nodes == self.nodes,
            g.types == self.types,
            g.adj(dir) == self.adj(dir).update(a, self.adj(dir)[a].push(r)),
            g.adj(dir.spec_flip()) == self.adj(dir.spec_flip()).update(
                b,
                self.adj(dir.spec_flip())[b].push(r.mirror(a)),
            ),
        ensures
            g.mirrored(dir),
    {
        let back = dir.spec_flip();
        assert(self.mirrored(dir));
        assert forall|u: int, i: int|
            0 <= u < g.adj(dir).len() && 0 <= i < g.adj(dir)[u].len() implies {
            &&& (#[trigger] g.adj(dir)[u][i]).peer < g.nodes.len()
            &&& g.adj(dir)[u][i].type_id < g.types.len()
            &&& g.adj(back)[g.adj(dir)[u][i].peer as int].contains(g.adj(dir)[u][i].mirror(u))
        } by {
            let x = g.adj(dir)[u][i];
            if u == a && i == self.adj(dir)[a].len() {
                assert(x == r);
                let list = g.adj(back)[b];
                assert(list[list.len() - 1] == r.mirror(a));
            } else {
                assert(x == self.adj(dir)[u][i]);
                let v = x.peer as int;
                let old_list = self.adj(back)[v];
                assert(old_list.contains(x.mirror(u)));
                let j = choose|j: int| 0 <= j < old_list.len() && old_list[j] == x.mirror(u);
                assert(g.adj(back)[v][j] == x.mirror(u));
            }
        }
    }

    /// Tombstoning a node keeps the invariant.
    pub proof fn lemma_without_node_wf(self, name: Seq<char>)
        requires
            self.wf(),
        ensures
            self.without_node(name).wf(),
    {
        let g = self.without_node(name);
        assert forall|dir: Direction| #[trigger] g.mirrored(dir) by {
            assert(self.mirrored(dir));
        }
    }

    /// Tombstoning an edge on both sides keeps the invariant.
    pub proof fn lemma_with_tombstones_wf(self, s: int, t: int, ty: u8)
        requires
            self.wf(),
            0 <= s < self.nodes.len(),
            0 <= t < self.nodes.len(),
        ensures
            self.with_tombstones(s, t, ty).wf(),
    {
        let g = self.with_tombstones(s, t, ty);
        self.lemma_tombstones_mirrored(g, Direction::Outgoing, s, t, ty);
        self.lemma_tombstones_mirrored(g, Direction::Incoming, t, s, ty);
    }

    /// After an edge was tombstoned on both sides, side `dir` is mirrored.
    proof fn lemma_tombstones_mirrored(self, g: GraphModel, dir: Direction, a: int, b: int, ty: u8)
        requires
            self.wf(),
            0 <= a < self.nodes.len(),
            0 <= b < self.nodes.len(),
            g.nodes == self.nodes,
            g.types == self.types,
            g.adj(dir) == self.adj(dir).update(a, tombstone_matching(self.adj(dir)[a], b as u32, ty)),
            g.adj(dir.spec_flip()) == self.adj(dir.spec_flip()).update(
                b,
                tombstone_matching(self.adj(dir.spec_flip())[b], a as u32, ty),
            ),
        ensures
            g.mirrored(dir),
    {
        let back = dir.spec_flip();
        assert(self.mirrored(dir));
        assert forall|u: int, i: int|
            0 <= u < g.adj(dir).len() && 0 <= i < g.adj(dir)[u].len() implies {
            &&& (#[trigger] g.adj(dir)[u][i]).peer < g.nodes.len()
            &&& g.adj(dir)[u][i].type_id < g.types.len()
            &&& g.adj(back)[g.adj(dir)[u][i].peer as int].contains(g.adj(dir)[u][i].mirror(u))
        } by {
            let x = self.adj(dir)[u][i];
            let y = g.adj(dir)[u][i];
            let v = x.peer as int;
            assert(y.peer == x.peer);
            let old_list = self.adj(back)[v];
            assert(old_list.contains(x.mirror(u)));
            let j = choose|j: int| 0 <= j < old_list.len() && old_list[j] == x.mirror(u);
            assert(g.adj(back)[v][j] == y.mirror(u));
        }
    }
}

} // verus!
