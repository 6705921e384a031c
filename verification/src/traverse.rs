//! Traversal: one hop from a set of sources, and breadth-first search
//! between two depths.

use crate::edge::Direction;
use crate::interner::texts;
use crate::model::GraphModel;
use crate::topology::GraphIndex;
use std::collections::HashSet;
use vstd::prelude::*;

verus! {

broadcast use vstd::std_specs::hash::group_hash_axioms;

/// `acc`, followed by the elements of `xs` that are new, each once, in the
/// order in which `xs` first names them.
pub open spec fn append_new(acc: Seq<u32>, xs: Seq<u32>) -> Seq<u32>
    decreases xs.len(),
{
    if xs.len() == 0 {
        acc
    } else {
        let before = append_new(acc, xs.drop_last());
        if before.contains(xs.last()) {
            before
        } else {
            before.push(xs.last())
        }
    }
}

/// `append_new` holds what either sequence holds, and repeats nothing that
/// `acc` did not repeat.
pub proof fn lemma_append_new(acc: Seq<u32>, xs: Seq<u32>)
    ensures
        forall|v: u32| append_new(acc, xs).contains(v) <==> acc.contains(v) || xs.contains(v),
        acc.no_duplicates() ==> append_new(acc, xs).no_duplicates(),
        acc.len() <= append_new(acc, xs).len(),
        append_new(acc, xs).take(acc.len() as int) == acc,
    decreases xs.len(),
{
    if xs.len() == 0 {
        assert(acc.take(acc.len() as int) =~= acc);
    } else {
        let init = xs.drop_last();
        let before = append_new(acc, init);
        let all = append_new(acc, xs);
        lemma_append_new(acc, init);
        assert(all.take(acc.len() as int) =~= before.take(acc.len() as int));
        assert forall|v: u32| all.contains(v) <==> acc.contains(v) || xs.contains(v) by {
            if all.contains(v) {
                let i = choose|i: int| 0 <= i < all.len() && all[i] == v;
                if i < before.len() {
                    assert(before[i] == v);
                    assert(before.contains(v));
                    if init.contains(v) {
                        let j = choose|j: int| 0 <= j < init.len() && init[j] == v;
                        assert(xs[j] == v);
                    }
                } else {
                    assert(xs[xs.len() - 1] == v);
                }
            }
            if acc.contains(v) || xs.contains(v) {
                if xs.contains(v) && !acc.contains(v) {
                    let j = choose|j: int| 0 <= j < xs.len() && xs[j] == v;
                    if j < init.len() {
                        assert(init[j] == v);
                        assert(init.contains(v));
                    }
                }
                if before.contains(v) {
                    let i = choose|i: int| 0 <= i < before.len() && before[i] == v;
                    assert(all[i] == v);
                } else {
                    assert(v == xs.last());
                    assert(all[before.len() as int] == v);
                }
            }
        }
    }
}

/// An optional label as a character sequence.
pub open spec fn label_text(label: Option<&str>) -> Option<Seq<char>> {
    match label {
        Some(l) => Some(l@),
        None => None,
    }
}

impl GraphModel {
    /// The indices of those of `names` that are nodes, in the order of
    /// `names`.
    pub open spec fn resolved(self, names: Seq<Seq<char>>) -> Seq<u32>
        decreases names.len(),
    {
        if names.len() == 0 {
            Seq::empty()
        } else if self.nodes.contains(names.last()) {
            self.resolved(names.drop_last()).push(self.nodes.index_of(names.last()) as u32)
        } else {
            self.resolved(names.drop_last())
        }
    }

    /// The names of the nodes `ids`.
    pub open spec fn names_of(self, ids: Seq<u32>) -> Seq<Seq<char>> {
        ids.map_values(|v: u32| self.nodes[v as int])
    }

    /// Distinct rows of known nodes have distinct rows of names.
    pub proof fn lemma_names_of_injective(self, a: Seq<u32>, b: Seq<u32>)
        requires
            self.nodes.no_duplicates(),
            forall|i: int| 0 <= i < a.len() ==> a[i] < self.nodes.len(),
            forall|i: int| 0 <= i < b.len() ==> b[i] < self.nodes.len(),
            self.names_of(a) == self.names_of(b),
        ensures
            a == b,
    {
        assert(a.len() == self.names_of(a).len());
        assert(b.len() == self.names_of(b).len());
        assert forall|i: int| 0 <= i < a.len() implies a[i] == b[i] by {
            assert(self.names_of(a)[i] == self.nodes[a[i] as int]);
            assert(self.names_of(b)[i] == self.nodes[b[i] as int]);
        }
        assert(a =~= b);
    }

    /// The type filter that a query for `label` applies: every type where
    /// no label is given, else the one type of that label. `None` where the
    /// label is given and unknown: then nothing is found.
    pub open spec fn type_filter(self, label: Option<Seq<char>>) -> Option<Option<u8>> {
        match label {
            None => Some(None),
            Some(l) => if self.types.contains(l) {
                Some(Some(self.types.index_of(l) as u8))
            } else {
                None
            },
        }
    }

    /// What `traverse` returns: the names of the nodes one hop from the
    /// known sources, each once, in order of first discovery.
    pub open spec fn traverse(
        self,
        sources: Seq<Seq<char>>,
        label: Option<Seq<char>>,
        dir: Direction,
        as_of: Option<i64>,
    ) -> Seq<Seq<char>> {
        match self.type_filter(label) {
            None => Seq::empty(),
            Some(ty) => self.names_of(self.gather(self.resolved(sources), ty, dir, as_of)),
        }
    }

    /// Whether `traverse_recursive` returns `name`: it names a node whose
    /// shortest walk from a known, live source has between `min` and `max`
    /// edges, and at least one.
    pub open spec fn in_range_name(
        self,
        sources: Seq<Seq<char>>,
        label: Option<Seq<char>>,
        dir: Direction,
        as_of: Option<i64>,
        min: nat,
        max: nat,
        name: Seq<char>,
    ) -> bool {
        match self.type_filter(label) {
            None => false,
            Some(ty) => exists|v: u32|
                v < self.nodes.len() && self.nodes[v as int] == name && #[trigger] self.in_range(
                    self.resolved(sources),
                    ty,
                    dir,
                    as_of,
                    min,
                    max,
                    v,
                ),
        }
    }

    /// A walk of fewer than `n + 1` edges is one of fewer than `n`, or one
    /// of `n`.
    pub proof fn lemma_nearer_step(
        self,
        sources: Seq<u32>,
        ty: Option<u8>,
        dir: Direction,
        as_of: Option<i64>,
        n: nat,
        v: u32,
    )
        ensures
            self.nearer(sources, ty, dir, as_of, n + 1, v) <==> self.nearer(
                sources,
                ty,
                dir,
                as_of,
                n,
                v,
            ) || self.reach(sources, ty, dir, as_of, n, v),
    {
        if self.nearer(sources, ty, dir, as_of, n + 1, v) {
            let k = choose|k: nat| k < n + 1 && #[trigger] self.reach(sources, ty, dir, as_of, k, v);
            if k < n {
                assert(self.nearer(sources, ty, dir, as_of, n, v));
            }
        }
        if self.nearer(sources, ty, dir, as_of, n, v) {
            let k = choose|k: nat| k < n && #[trigger] self.reach(sources, ty, dir, as_of, k, v);
            assert(k < n + 1);
        }
        if self.reach(sources, ty, dir, as_of, n, v) {
            assert(n < n + 1);
        }
    }

    /// Raising the upper depth by one adds the nodes at that distance.
    pub proof fn lemma_in_range_step(
        self,
        sources: Seq<u32>,
        ty: Option<u8>,
        dir: Direction,
        as_of: Option<i64>,
        min: nat,
        max: nat,
        v: u32,
    )
        ensures
            self.in_range(sources, ty, dir, as_of, min, max + 1, v) <==> self.in_range(
                sources,
                ty,
                dir,
                as_of,
                min,
                max,
                v,
            ) || (min <= max + 1 && self.at_distance(sources, ty, dir, as_of, max + 1, v)),
            !self.in_range(sources, ty, dir, as_of, min, 0, v),
            self.in_range(sources, ty, dir, as_of, min, max, v) ==> self.nearer(
                sources,
                ty,
                dir,
                as_of,
                max + 1,
                v,
            ),
    {
        let next: nat = max + 1;
        if self.in_range(sources, ty, dir, as_of, min, next, v) {
            let d = choose|d: nat|
                1 <= d && min <= d <= next && #[trigger] self.at_distance(
                    sources,
                    ty,
                    dir,
                    as_of,
                    d,
                    v,
                );
            if d <= max {
                assert(self.in_range(sources, ty, dir, as_of, min, max, v));
            }
        }
        if self.in_range(sources, ty, dir, as_of, min, max, v) {
            let d = choose|d: nat|
                1 <= d && min <= d <= max && #[trigger] self.at_distance(sources, ty, dir, as_of, d, v);
            assert(d <= next);
            assert(self.reach(sources, ty, dir, as_of, d, v));
            assert(d < max + 1);
        }
        if min <= next && self.at_distance(sources, ty, dir, as_of, next, v) {
            assert(1 <= next);
        }
    }

    /// Beyond the last distance at which there is a node, a greater upper
    /// depth finds nothing more.
    pub proof fn lemma_in_range_end(
        self,
        sources: Seq<u32>,
        ty: Option<u8>,
        dir: Direction,
        as_of: Option<i64>,
        min: nat,
        d: nat,
        max: nat,
        v: u32,
    )
        requires
            d <= max,
            forall|u: u32| !self.at_distance(sources, ty, dir, as_of, d, u),
        ensures
            self.in_range(sources, ty, dir, as_of, min, max, v) == self.in_range(
                sources,
                ty,
                dir,
                as_of,
                min,
                d,
                v,
            ),
    {
        if self.in_range(sources, ty, dir, as_of, min, max, v) {
            let e = choose|e: nat|
                1 <= e && min <= e <= max && #[trigger] self.at_distance(sources, ty, dir, as_of, e, v);
            if e >= d {
                self.lemma_layers_end(sources, ty, dir, as_of, d, e, v);
            }
        }
        if self.in_range(sources, ty, dir, as_of, min, d, v) {
            let e = choose|e: nat|
                1 <= e && min <= e <= d && #[trigger] self.at_distance(sources, ty, dir, as_of, e, v);
            assert(e <= max);
        }
    }

    /// The nodes one hop from `sources`, each once, in the order in which
    /// the sources' adjacency lists first name them.
    pub open spec fn gather(
        self,
        sources: Seq<u32>,
        ty: Option<u8>,
        dir: Direction,
        as_of: Option<i64>,
    ) -> Seq<u32>
        decreases sources.len(),
    {
        if sources.len() == 0 {
            Seq::empty()
        } else {
            append_new(
                self.gather(sources.drop_last(), ty, dir, as_of),
                self.neighbors(sources.last() as int, ty, dir, as_of),
            )
        }
    }

    /// Whether some walk of exactly `n` admitted edges leads from a live
    /// source to `v`, over live nodes only.
    pub open spec fn reach(
        self,
        sources: Seq<u32>,
        ty: Option<u8>,
        dir: Direction,
        as_of: Option<i64>,
        n: nat,
        v: u32,
    ) -> bool
        decreases n,
    {
        if n == 0 {
            sources.contains(v) && self.live(v as int)
        } else {
            exists|u: u32| 
                self.reach(sources, ty, dir, as_of, (n - 1) as nat, u) && #[trigger] self.linked(
                    u as int,
                    v,
                    ty,
                    dir,
                    as_of,
                )
        }
    }

    /// Whether some walk of fewer than `n` edges leads from a live source
    /// to `v`.
    pub open spec fn nearer(
        self,
        sources: Seq<u32>,
        ty: Option<u8>,
        dir: Direction,
        as_of: Option<i64>,
        n: nat,
        v: u32,
    ) -> bool {
        exists|k: nat| k < n && #[trigger] self.reach(sources, ty, dir, as_of, k, v)
    }

    /// Whether the shortest walk from a live source to `v` has exactly `d`
    /// edges.
    pub open spec fn at_distance(
        self,
        sources: Seq<u32>,
        ty: Option<u8>,
        dir: Direction,
        as_of: Option<i64>,
        d: nat,
        v: u32,
    ) -> bool {
        self.reach(sources, ty, dir, as_of, d, v) && !self.nearer(sources, ty, dir, as_of, d, v)
    }

    /// Whether the shortest walk from a live source to `v` has at least one
    /// edge, and between `min` and `max` edges.
    pub open spec fn in_range(
        self,
        sources: Seq<u32>,
        ty: Option<u8>,
        dir: Direction,
        as_of: Option<i64>,
        min: nat,
        max: nat,
        v: u32,
    ) -> bool {
        exists|d: nat|
            1 <= d && min <= d <= max && #[trigger] self.at_distance(sources, ty, dir, as_of, d, v)
    }

    /// No tombstoned node is in the result of a traversal.
    pub proof fn lemma_gather_live(
        self,
        sources: Seq<u32>,
        ty: Option<u8>,
        dir: Direction,
        as_of: Option<i64>,
        v: u32,
    )
        requires
            self.gather(sources, ty, dir, as_of).contains(v),
        ensures
            self.live(v as int),
    {
        self.lemma_gather(sources, ty, dir, as_of);
        let u = choose|u: u32| #[trigger]
            sources.contains(u) && self.linked(u as int, v, ty, dir, as_of);
        assert(self.linked(u as int, v, ty, dir, as_of));
    }

    /// `gather` names exactly the nodes that some source is linked to, each
    /// once.
    pub proof fn lemma_gather(self, sources: Seq<u32>, ty: Option<u8>, dir: Direction, as_of: Option<i64>)
        ensures
            self.gather(sources, ty, dir, as_of).no_duplicates(),
            forall|v: u32|
                self.gather(sources, ty, dir, as_of).contains(v) <==> exists|u: u32| #[trigger]
                    sources.contains(u) && self.linked(u as int, v, ty, dir, as_of),
        decreases sources.len(),
    {
        if sources.len() > 0 {
            let init = sources.drop_last();
            let last = sources.last();
            let before = self.gather(init, ty, dir, as_of);
            let nb = self.neighbors(last as int, ty, dir, as_of);
            let all = self.gather(sources, ty, dir, as_of);
            self.lemma_gather(init, ty, dir, as_of);
            self.lemma_neighbors(last as int, ty, dir, as_of);
            lemma_append_new(before, nb);
            assert(sources[sources.len() - 1] == last);
            assert(sources.contains(last));
            assert forall|u: u32| init.contains(u) implies sources.contains(u) by {
                let i = choose|i: int| 0 <= i < init.len() && init[i] == u;
                assert(sources[i] == u);
            }
            assert forall|u: u32| sources.contains(u) implies init.contains(u) || u == last by {
                let i = choose|i: int| 0 <= i < sources.len() && sources[i] == u;
                if i < init.len() {
                    assert(init[i] == u);
                }
            }
            assert forall|v: u32|
                all.contains(v) <==> exists|u: u32| #[trigger]
                    sources.contains(u) && self.linked(u as int, v, ty, dir, as_of) by {
                if all.contains(v) {
                    if before.contains(v) {
                        let u = choose|u: u32| #[trigger]
                            init.contains(u) && self.linked(u as int, v, ty, dir, as_of);
                        assert(sources.contains(u));
                    } else {
                        assert(nb.contains(v));
                        assert(self.linked(last as int, v, ty, dir, as_of));
                    }
                }
                if exists|u: u32| #[trigger]
                    sources.contains(u) && self.linked(u as int, v, ty, dir, as_of) {
                    let u = choose|u: u32| #[trigger]
                        sources.contains(u) && self.linked(u as int, v, ty, dir, as_of);
                    if u == last {
                        assert(nb.contains(v));
                    } else {
                        assert(init.contains(u));
                        assert(before.contains(v));
                    }
                }
            }
        }
    }

    /// A walk of `n + 1` edges is a walk of `n` edges and one more hop.
    pub proof fn lemma_reach_step(
        self,
        sources: Seq<u32>,
        ty: Option<u8>,
        dir: Direction,
        as_of: Option<i64>,
        n: nat,
        v: u32,
    )
        ensures
            self.reach(sources, ty, dir, as_of, n + 1, v) <==> exists|u: u32| 
                self.reach(sources, ty, dir, as_of, n, u) && #[trigger] self.linked(u as int, v, ty, dir, as_of),
    {
        let m: nat = n + 1;
        assert((m - 1) as nat == n);
        if self.reach(sources, ty, dir, as_of, m, v) {
            let u = choose|u: u32| 
                self.reach(sources, ty, dir, as_of, (m - 1) as nat, u) && #[trigger] self.linked(
                    u as int,
                    v,
                    ty,
                    dir,
                    as_of,
                );
            assert(self.reach(sources, ty, dir, as_of, n, u));
        }
        if exists|u: u32| 
            self.reach(sources, ty, dir, as_of, n, u) && #[trigger] self.linked(u as int, v, ty, dir, as_of) {
            let u = choose|u: u32| 
                self.reach(sources, ty, dir, as_of, n, u) && #[trigger] self.linked(u as int, v, ty, dir, as_of);
            assert(self.reach(sources, ty, dir, as_of, (m - 1) as nat, u));
        }
    }

    /// One hop from the nodes that `n` edges reach leads to the nodes that
    /// `n + 1` edges reach: walks of `n` edges are `n` single hops in a row.
    pub proof fn lemma_gather_is_next_reach(
        self,
        sources: Seq<u32>,
        ty: Option<u8>,
        dir: Direction,
        as_of: Option<i64>,
        n: nat,
        layer: Seq<u32>,
    )
        requires
            forall|u: u32| layer.contains(u) <==> self.reach(sources, ty, dir, as_of, n, u),
        ensures
            forall|v: u32|
                self.gather(layer, ty, dir, as_of).contains(v) <==> self.reach(
                    sources,
                    ty,
                    dir,
                    as_of,
                    n + 1,
                    v,
                ),
    {
        self.lemma_gather(layer, ty, dir, as_of);
        assert forall|v: u32|
            self.gather(layer, ty, dir, as_of).contains(v) <==> self.reach(
                sources,
                ty,
                dir,
                as_of,
                n + 1,
                v,
            ) by {
            self.lemma_reach_step(sources, ty, dir, as_of, n, v);
            if self.gather(layer, ty, dir, as_of).contains(v) {
                let u = choose|u: u32| #[trigger]
                    layer.contains(u) && self.linked(u as int, v, ty, dir, as_of);
                assert(self.reach(sources, ty, dir, as_of, n, u));
            }
            if self.reach(sources, ty, dir, as_of, n + 1, v) {
                let u = choose|u: u32| 
                    self.reach(sources, ty, dir, as_of, n, u) && #[trigger] self.linked(
                        u as int,
                        v,
                        ty,
                        dir,
                        as_of,
                    );
                assert(layer.contains(u));
            }
        }
    }

    /// What one hop from the nodes at distance `d` reaches, and what no
    /// shorter walk reaches, is at distance `d + 1`.
    pub proof fn lemma_next_layer(
        self,
        sources: Seq<u32>,
        ty: Option<u8>,
        dir: Direction,
        as_of: Option<i64>,
        d: nat,
        v: u32,
    )
        ensures
            self.at_distance(sources, ty, dir, as_of, d + 1, v) <==> !self.nearer(
                sources,
                ty,
                dir,
                as_of,
                d + 1,
                v,
            ) && exists|u: u32| #[trigger]
                self.at_distance(sources, ty, dir, as_of, d, u) && self.linked(
                    u as int,
                    v,
                    ty,
                    dir,
                    as_of,
                ),
    {
        self.lemma_reach_step(sources, ty, dir, as_of, d, v);
        if self.at_distance(sources, ty, dir, as_of, d + 1, v) {
            let u = choose|u: u32| 
                self.reach(sources, ty, dir, as_of, d, u) && #[trigger] self.linked(u as int, v, ty, dir, as_of);
            if self.nearer(sources, ty, dir, as_of, d, u) {
                let k = choose|k: nat| k < d && #[trigger] self.reach(sources, ty, dir, as_of, k, u);
                self.lemma_reach_step(sources, ty, dir, as_of, k, v);
                let k1: nat = k + 1;
                assert(self.reach(sources, ty, dir, as_of, k1, v));
                assert(false);
            }
            assert(self.at_distance(sources, ty, dir, as_of, d, u));
        }
        if !self.nearer(sources, ty, dir, as_of, d + 1, v) && exists|u: u32| #[trigger]
            self.at_distance(sources, ty, dir, as_of, d, u) && self.linked(u as int, v, ty, dir, as_of) {
            let u = choose|u: u32| #[trigger]
                self.at_distance(sources, ty, dir, as_of, d, u) && self.linked(
                    u as int,
                    v,
                    ty,
                    dir,
                    as_of,
                );
            assert(self.reach(sources, ty, dir, as_of, d, u));
        }
    }

    /// Once no node is at distance `d`, none is at any greater distance.
    pub proof fn lemma_layers_end(
        self,
        sources: Seq<u32>,
        ty: Option<u8>,
        dir: Direction,
        as_of: Option<i64>,
        d: nat,
        e: nat,
        v: u32,
    )
        requires
            forall|u: u32| !self.at_distance(sources, ty, dir, as_of, d, u),
            d <= e,
        ensures
            !self.at_distance(sources, ty, dir, as_of, e, v),
        decreases e - d,
    {
        if d < e {
            let next: nat = d + 1;
            assert forall|u: u32| !self.at_distance(sources, ty, dir, as_of, next, u) by {
                self.lemma_next_layer(sources, ty, dir, as_of, d, u);
            }
            self.lemma_layers_end(sources, ty, dir, as_of, next, e, v);
        }
    }

    /// If nothing ends the edges that an earlier query admits at the
    /// sources, a later query reaches in one hop all that the earlier one
    /// reached.
    pub proof fn lemma_temporal_monotonicity(
        self,
        sources: Seq<u32>,
        ty: Option<u8>,
        dir: Direction,
        earlier: Option<i64>,
        later: Option<i64>,
    )
        requires
            crate::edge::as_of_le(earlier, later),
            forall|u: u32, i: int|
                sources.contains(u) && u < self.adj(dir).len() && 0 <= i < self.adj(dir)[u as int].len()
                    && self.passes(#[trigger] self.adj(dir)[u as int][i], ty, earlier) ==> self.adj(
                    dir,
                )[u as int][i].valid_to is None,
        ensures
            forall|v: u32|
                self.gather(sources, ty, dir, earlier).contains(v) ==> self.gather(
                    sources,
                    ty,
                    dir,
                    later,
                ).contains(v),
    {
        self.lemma_gather(sources, ty, dir, earlier);
        self.lemma_gather(sources, ty, dir, later);
        assert forall|v: u32| self.gather(sources, ty, dir, earlier).contains(v) implies self.gather(
            sources,
            ty,
            dir,
            later,
        ).contains(v) by {
            let w = choose|w: u32| #[trigger]
                sources.contains(w) && self.linked(w as int, v, ty, dir, earlier);
            let u = w as int;
            let j = choose|j: int|
                0 <= j < self.adj(dir)[u].len() && (#[trigger] self.adj(dir)[u][j]).peer == v
                    && self.passes(self.adj(dir)[u][j], ty, earlier);
            crate::edge::lemma_visible_later(self.adj(dir)[u][j], earlier, later);
            assert(self.passes(self.adj(dir)[u][j], ty, later));
            assert(self.linked(w as int, v, ty, dir, later));
        }
    }

    /// The same, of `traverse`: where nothing ends the edges that the
    /// earlier query admits at the sources, every name that it returns the
    /// later query returns too.
    pub proof fn lemma_traverse_monotonicity(
        self,
        sources: Seq<Seq<char>>,
        label: Option<Seq<char>>,
        dir: Direction,
        earlier: Option<i64>,
        later: Option<i64>,
    )
        requires
            crate::edge::as_of_le(earlier, later),
            self.type_filter(label) matches Some(ty) ==> forall|u: u32, i: int|
                self.resolved(sources).contains(u) && u < self.adj(dir).len() && 0 <= i < self.adj(
                    dir,
                )[u as int].len() && self.passes(#[trigger] self.adj(dir)[u as int][i], ty, earlier)
                    ==> self.adj(dir)[u as int][i].valid_to is None,
        ensures
            forall|name: Seq<char>|
                self.traverse(sources, label, dir, earlier).contains(name) ==> self.traverse(
                    sources,
                    label,
                    dir,
                    later,
                ).contains(name),
    {
        match self.type_filter(label) {
            None => {},
            Some(ty) => {
                let ids = self.resolved(sources);
                let a = self.gather(ids, ty, dir, earlier);
                let b = self.gather(ids, ty, dir, later);
                self.lemma_temporal_monotonicity(ids, ty, dir, earlier, later);
                assert forall|name: Seq<char>| self.names_of(a).contains(name) implies self.names_of(
                    b,
                ).contains(name) by {
                    let i = choose|i: int| 0 <= i < self.names_of(a).len() && self.names_of(a)[i] == name;
                    assert(a.contains(a[i]));
                    assert(b.contains(a[i]));
                    let j = choose|j: int| 0 <= j < b.len() && b[j] == a[i];
                    assert(self.names_of(b)[j] == name);
                }
            },
        }
    }

    /// Breadth-first search for exactly `d` hops finds what `d` single hops
    /// in a row reach, less the sources, provided that none of those nodes
    /// is also reached by fewer hops.
    pub proof fn lemma_exact_depth(
        self,
        sources: Seq<u32>,
        ty: Option<u8>,
        dir: Direction,
        as_of: Option<i64>,
        d: nat,
        v: u32,
    )
        requires
            d >= 1,
            forall|w: u32, k: nat|
                1 <= k < d && #[trigger] self.reach(sources, ty, dir, as_of, k, w) && self.reach(
                    sources,
                    ty,
                    dir,
                    as_of,
                    d,
                    w,
                ) ==> sources.contains(w),
        ensures
            self.in_range(sources, ty, dir, as_of, d, d, v) <==> self.reach(
                sources,
                ty,
                dir,
                as_of,
                d,
                v,
            ) && !sources.contains(v),
    {
        if self.in_range(sources, ty, dir, as_of, d, d, v) {
            let e = choose|e: nat|
                1 <= e && d <= e <= d && #[trigger] self.at_distance(sources, ty, dir, as_of, e, v);
            assert(self.at_distance(sources, ty, dir, as_of, d, v));
            if sources.contains(v) {
                self.lemma_reached_is_live(sources, ty, dir, as_of, d, v);
                assert(self.reach(sources, ty, dir, as_of, 0, v));
                assert(false);
            }
        }
        if self.reach(sources, ty, dir, as_of, d, v) && !sources.contains(v) {
            if self.nearer(sources, ty, dir, as_of, d, v) {
                let k = choose|k: nat| k < d && #[trigger] self.reach(sources, ty, dir, as_of, k, v);
                assert(false);
            }
            assert(self.at_distance(sources, ty, dir, as_of, d, v));
        }
    }

    /// Every node that a walk reaches is live.
    pub proof fn lemma_reached_is_live(
        self,
        sources: Seq<u32>,
        ty: Option<u8>,
        dir: Direction,
        as_of: Option<i64>,
        n: nat,
        v: u32,
    )
        requires
            self.reach(sources, ty, dir, as_of, n, v),
        ensures
            self.live(v as int),
    {
        if n > 0 {
            let u = choose|u: u32| 
                self.reach(sources, ty, dir, as_of, (n - 1) as nat, u) && #[trigger] self.linked(
                    u as int,
                    v,
                    ty,
                    dir,
                    as_of,
                );
            assert(self.linked(u as int, v, ty, dir, as_of));
        }
    }
}

impl GraphIndex {
    /// The indices of those of `names` that are nodes, in the order of
    /// `names`.
    pub fn resolve_ids(&self, names: &[String]) -> (r: Vec<u32>)
        requires
            self.wf(),
        ensures
            r@ == self@.resolved(texts(names@)),
            forall|i: int| 0 <= i < r@.len() ==> r@[i] < self@.nodes.len(),
    {
        let ghost all = texts(names@);
        let mut out: Vec<u32> = Vec::new();
        let mut i: usize = 0;
        while i < names.len()
            invariant
                i <= names.len(),
                self.wf(),
                all == texts(names@),
                out@ == self@.resolved(all.take(i as int)),
                forall|j: int| 0 <= j < out@.len() ==> out@[j] < self@.nodes.len(),
            decreases names.len() - i,
        {
            proof {
                self.lemma_wf();
                assert(all.take(i + 1).drop_last() =~= all.take(i as int));
                assert(all.take(i + 1).last() == names@[i as int]@);
            }
            match self.lookup_id(names[i].as_str()) {
                Some(id) => {
                    proof {
                        let name = names@[i as int]@;
                        assert(self@.nodes.contains(name));
                        assert(self@.nodes[self@.nodes.index_of(name)] == name);
                    }
                    out.push(id);
                },
                None => {},
            }
            i += 1;
        }
        proof {
            assert(all.take(names.len() as int) =~= all);
        }
        out
    }

    /// The names of the nodes `ids`.
    pub fn names_of(&self, ids: &[u32]) -> (r: Vec<String>)
        requires
            forall|i: int| 0 <= i < ids@.len() ==> ids@[i] < self@.nodes.len(),
        ensures
            texts(r@) == self@.names_of(ids@),
    {
        let mut out: Vec<String> = Vec::new();
        let mut i: usize = 0;
        while i < ids.len()
            invariant
                i <= ids.len(),
                forall|j: int| 0 <= j < ids@.len() ==> ids@[j] < self@.nodes.len(),
                texts(out@) == self@.names_of(ids@.take(i as int)),
            decreases ids.len() - i,
        {
            let ghost before = out@;
            match self.lookup_str(ids[i]) {
                Some(name) => {
                    out.push(name.to_owned());
                },
                None => {
                    proof {
                        assert(false);
                    }
                },
            }
            proof {
                assert(texts(out@) =~= texts(before).push(self@.nodes[ids@[i as int] as int]));
                assert(self@.names_of(ids@.take(i + 1)) =~= self@.names_of(ids@.take(i as int)).push(
                    self@.nodes[ids@[i as int] as int],
                ));
            }
            i += 1;
        }
        proof {
            assert(ids@.take(ids.len() as int) =~= ids@);
        }
        out
    }

    /// The type filter of a query for `label`; `None` where the label is
    /// given and unknown.
    pub fn resolve_type(&self, label: Option<&str>) -> (r: Option<Option<u8>>)
        requires
            self.wf(),
        ensures
            r == self@.type_filter(label_text(label)),
    {
        match label {
            None => Some(None),
            Some(l) => match self.get_type_id(l) {
                Some(id) => {
                    proof {
                        self.lemma_wf();
                        assert(self@.types.contains(l@));
                        assert(self@.types[self@.types.index_of(l@)] == l@);
                    }
                    Some(Some(id))
                },
                None => None,
            },
        }
    }

    /// The live nodes one hop from `sources` over admitted edges of type
    /// `ty` (of any type where it is absent) on side `dir`, each once, in
    /// order of first discovery.
    pub fn traverse_ids(
        &self,
        sources: &[u32],
        ty: Option<u8>,
        dir: Direction,
        as_of: Option<i64>,
    ) -> (r: Vec<u32>)
        requires
            self.wf(),
        ensures
            r@ == self@.gather(sources@, ty, dir, as_of),
            forall|i: int| 0 <= i < r@.len() ==> r@[i] < self@.nodes.len(),
    {
        let mut out: Vec<u32> = Vec::new();
        let mut seen: HashSet<u32> = HashSet::new();
        let mut i: usize = 0;
        while i < sources.len()
            invariant
                i <= sources.len(),
                self.wf(),
                out@ == self@.gather(sources@.take(i as int), ty, dir, as_of),
                forall|v: u32| seen@.contains(v) <==> out@.contains(v),
                forall|j: int| 0 <= j < out@.len() ==> self@.live(out@[j] as int),
            decreases sources.len() - i,
        {
            let nb = self.neighbors_of(sources[i], ty, dir, as_of);
            let ghost base = out@;
            proof {
                assert(sources@.take(i + 1).drop_last() =~= sources@.take(i as int));
                assert(sources@.take(i + 1).last() == sources@[i as int]);
                self@.lemma_neighbors(sources@[i as int] as int, ty, dir, as_of);
            }
            let mut j: usize = 0;
            while j < nb.len()
                invariant
                    j <= nb.len(),
                    i < sources.len(),
                    out@ == append_new(base, nb@.take(j as int)),
                    forall|v: u32| seen@.contains(v) <==> out@.contains(v),
                    forall|a: int| 0 <= a < out@.len() ==> self@.live(out@[a] as int),
                    forall|v: u32|
                        nb@.contains(v) ==> self@.linked(sources@[i as int] as int, v, ty, dir, as_of),
                decreases nb.len() - j,
            {
                let v = nb[j];
                proof {
                    assert(nb@.take(j + 1).drop_last() =~= nb@.take(j as int));
                    assert(nb@.take(j + 1).last() == v);
                    assert(nb@.contains(v));
                }
                if !seen.contains(&v) {
                    let ghost before = out@;
                    seen.insert(v);
                    out.push(v);
                    proof {
                        assert forall|w: u32| seen@.contains(w) <==> out@.contains(w) by {
                            if before.contains(w) {
                                let a = choose|a: int| 0 <= a < before.len() && before[a] == w;
                                assert(out@[a] == w);
                            }
                            if w == v {
                                assert(out@[before.len() as int] == w);
                            }
                        }
                    }
                }
                j += 1;
            }
            proof {
                assert(nb@.take(nb.len() as int) =~= nb@);
            }
            i += 1;
        }
        proof {
            assert(sources@.take(sources.len() as int) =~= sources@);
            self.lemma_wf();
            assert forall|a: int| 0 <= a < out@.len() implies out@[a] < self@.nodes.len() by {
                assert(self@.live(out@[a] as int));
            }
        }
        out
    }

    /// The names of the live nodes one hop from the named sources, each
    /// once, in order of first discovery. Sources that are unknown or
    /// tombstoned contribute nothing; an unknown edge type finds nothing.
    pub fn traverse(
        &self,
        sources: &[String],
        edge_type: Option<&str>,
        direction: Direction,
        as_of: Option<i64>,
    ) -> (r: Vec<String>)
        requires
            self.wf(),
        ensures
            texts(r@) == self@.traverse(texts(sources@), label_text(edge_type), direction, as_of),
    {
        match self.resolve_type(edge_type) {
            None => {
                let r: Vec<String> = Vec::new();
                assert(texts(r@) =~= Seq::<Seq<char>>::empty());
                r
            },
            Some(ty) => {
                let ids = self.resolve_ids(sources);
                let found = self.traverse_ids(ids.as_slice(), ty, direction, as_of);
                self.names_of(found.as_slice())
            },
        }
    }
}

} // verus!
