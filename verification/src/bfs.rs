//! Breadth-first search between two depths.

use crate::edge::Direction;
use crate::interner::texts;
use crate::model::GraphModel;
use crate::topology::GraphIndex;
use crate::traverse::label_text;
use std::collections::HashSet;
use vstd::prelude::*;

verus! {

broadcast use vstd::std_specs::hash::group_hash_axioms;

/// The elements of `xs` that `seen` does not hold, in the order of `xs`.
pub open spec fn unseen(seen: Seq<u32>, xs: Seq<u32>) -> Seq<u32>
    decreases xs.len(),
{
    if xs.len() == 0 {
        Seq::empty()
    } else if seen.contains(xs.last()) {
        unseen(seen, xs.drop_last())
    } else {
        unseen(seen, xs.drop_last()).push(xs.last())
    }
}

/// `unseen` holds what `xs` holds and `seen` does not, and repeats nothing
/// that `xs` did not repeat.
pub proof fn lemma_unseen(seen: Seq<u32>, xs: Seq<u32>)
    ensures
        forall|v: u32| unseen(seen, xs).contains(v) <==> xs.contains(v) && !seen.contains(v),
        xs.no_duplicates() ==> unseen(seen, xs).no_duplicates(),
    decreases xs.len(),
{
    if xs.len() > 0 {
        let init = xs.drop_last();
        let last = xs.last();
        let before = unseen(seen, init);
        let all = unseen(seen, xs);
        lemma_unseen(seen, init);
        assert(xs[xs.len() - 1] == last);
        assert forall|v: u32| init.contains(v) implies xs.contains(v) by {
            let i = choose|i: int| 0 <= i < init.len() && init[i] == v;
            assert(xs[i] == v);
        }
        assert forall|v: u32| xs.contains(v) implies init.contains(v) || v == last by {
            let i = choose|i: int| 0 <= i < xs.len() && xs[i] == v;
            if i < init.len() {
                assert(init[i] == v);
            }
        }
        assert forall|v: u32| all.contains(v) <==> xs.contains(v) && !seen.contains(v) by {
            if all.contains(v) {
                let i = choose|i: int| 0 <= i < all.len() && all[i] == v;
                if i < before.len() {
                    assert(before[i] == v);
                    assert(before.contains(v));
                }
            }
            if xs.contains(v) && !seen.contains(v) {
                if init.contains(v) {
                    assert(before.contains(v));
                    let i = choose|i: int| 0 <= i < before.len() && before[i] == v;
                    assert(all[i] == v);
                } else {
                    assert(all[before.len() as int] == v);
                }
            }
        }
        if xs.no_duplicates() {
            assert(init.no_duplicates());
            if before.contains(last) {
                assert(init.contains(last));
                let i = choose|i: int| 0 <= i < init.len() && init[i] == last;
                assert(xs[i] == xs[xs.len() - 1]);
            }
        }
    }
}

impl GraphModel {
    /// The live nodes among `sources`, each once, in the order of `sources`.
    pub open spec fn live_sources(self, sources: Seq<u32>) -> Seq<u32>
        decreases sources.len(),
    {
        if sources.len() == 0 {
            Seq::empty()
        } else {
            let before = self.live_sources(sources.drop_last());
            let s = sources.last();
            if self.live(s as int) && !before.contains(s) {
                before.push(s)
            } else {
                before
            }
        }
    }

    /// The nodes that the search first finds at depth `d`, in order of
    /// discovery: at depth 0 the live sources, at each further depth what one
    /// hop from the layer before reaches and no layer before holds.
    pub open spec fn layer(
        self,
        sources: Seq<u32>,
        ty: Option<u8>,
        dir: Direction,
        as_of: Option<i64>,
        d: nat,
    ) -> Seq<u32>
        decreases d, 0nat,
    {
        if d == 0 {
            self.live_sources(sources)
        } else {
            unseen(
                self.settled(sources, ty, dir, as_of, (d - 1) as nat),
                self.gather(self.layer(sources, ty, dir, as_of, (d - 1) as nat), ty, dir, as_of),
            )
        }
    }

    /// The nodes that the search has found up to depth `d`: the layers
    /// `0..=d` in a row.
    pub open spec fn settled(
        self,
        sources: Seq<u32>,
        ty: Option<u8>,
        dir: Direction,
        as_of: Option<i64>,
        d: nat,
    ) -> Seq<u32>
        decreases d, 1nat,
    {
        if d == 0 {
            self.layer(sources, ty, dir, as_of, 0)
        } else {
            self.settled(sources, ty, dir, as_of, (d - 1) as nat) + self.layer(
                sources,
                ty,
                dir,
                as_of,
                d,
            )
        }
    }

    /// What the search returns: the layers from depth `min`, and at least 1,
    /// to depth `max`, in a row.
    pub open spec fn bfs(
        self,
        sources: Seq<u32>,
        ty: Option<u8>,
        dir: Direction,
        as_of: Option<i64>,
        min: nat,
        max: nat,
    ) -> Seq<u32>
        decreases max,
    {
        if max == 0 || max < min {
            Seq::empty()
        } else {
            self.bfs(sources, ty, dir, as_of, min, (max - 1) as nat) + self.layer(
                sources,
                ty,
                dir,
                as_of,
                max,
            )
        }
    }

    /// What `n` single hops in a row reach from `sources`.
    pub open spec fn hops(
        self,
        sources: Seq<u32>,
        ty: Option<u8>,
        dir: Direction,
        as_of: Option<i64>,
        n: nat,
    ) -> Seq<u32>
        decreases n,
    {
        if n == 0 {
            sources
        } else {
            self.gather(self.hops(sources, ty, dir, as_of, (n - 1) as nat), ty, dir, as_of)
        }
    }

    /// What `traverse_recursive` returns: the names of the nodes that the
    /// search from the known sources returns, in order of discovery.
    pub open spec fn traverse_recursive(
        self,
        sources: Seq<Seq<char>>,
        label: Option<Seq<char>>,
        dir: Direction,
        as_of: Option<i64>,
        min: nat,
        max: nat,
    ) -> Seq<Seq<char>> {
        match self.type_filter(label) {
            None => Seq::empty(),
            Some(ty) => self.names_of(self.bfs(self.resolved(sources), ty, dir, as_of, min, max)),
        }
    }

    /// `live_sources` names exactly the live sources, each once.
    pub proof fn lemma_live_sources(self, sources: Seq<u32>)
        ensures
            self.live_sources(sources).no_duplicates(),
            forall|v: u32|
                self.live_sources(sources).contains(v) <==> sources.contains(v) && self.live(v as int),
        decreases sources.len(),
    {
        if sources.len() > 0 {
            let init = sources.drop_last();
            let last = sources.last();
            let before = self.live_sources(init);
            let all = self.live_sources(sources);
            self.lemma_live_sources(init);
            assert(sources[sources.len() - 1] == last);
            assert forall|v: u32| init.contains(v) implies sources.contains(v) by {
                let i = choose|i: int| 0 <= i < init.len() && init[i] == v;
                assert(sources[i] == v);
            }
            assert forall|v: u32| sources.contains(v) implies init.contains(v) || v == last by {
                let i = choose|i: int| 0 <= i < sources.len() && sources[i] == v;
                if i < init.len() {
                    assert(init[i] == v);
                }
            }
            assert forall|v: u32| all.contains(v) <==> sources.contains(v) && self.live(v as int) by {
                if all.contains(v) {
                    let i = choose|i: int| 0 <= i < all.len() && all[i] == v;
                    if i < before.len() {
                        assert(before[i] == v);
                        assert(before.contains(v));
                    }
                }
                if sources.contains(v) && self.live(v as int) {
                    if before.contains(v) {
                        let i = choose|i: int| 0 <= i < before.len() && before[i] == v;
                        assert(all[i] == v);
                    } else {
                        assert(v == last);
                        assert(all[before.len() as int] == v);
                    }
                }
            }
        }
    }

    /// A layer holds exactly the nodes at its distance, each once, and the
    /// layers up to it hold exactly the nodes that are no farther.
    pub proof fn lemma_layers(
        self,
        sources: Seq<u32>,
        ty: Option<u8>,
        dir: Direction,
        as_of: Option<i64>,
        d: nat,
    )
        ensures
            self.layer(sources, ty, dir, as_of, d).no_duplicates(),
            forall|v: u32|
                self.layer(sources, ty, dir, as_of, d).contains(v) <==> self.at_distance(
                    sources,
                    ty,
                    dir,
                    as_of,
                    d,
                    v,
                ),
            forall|v: u32|
                self.settled(sources, ty, dir, as_of, d).contains(v) <==> self.nearer(
                    sources,
                    ty,
                    dir,
                    as_of,
                    d + 1,
                    v,
                ),
        decreases d,
    {
        let here = self.layer(sources, ty, dir, as_of, d);
        let done = self.settled(sources, ty, dir, as_of, d);
        if d == 0 {
            self.lemma_live_sources(sources);
            assert forall|v: u32| here.contains(v) <==> self.at_distance(sources, ty, dir, as_of, 0, v) by {
                if self.nearer(sources, ty, dir, as_of, 0, v) {
                    let k = choose|k: nat| k < 0 && #[trigger] self.reach(sources, ty, dir, as_of, k, v);
                }
            }
            assert forall|v: u32| done.contains(v) <==> self.nearer(sources, ty, dir, as_of, 1, v) by {
                self.lemma_nearer_step(sources, ty, dir, as_of, 0, v);
                if self.nearer(sources, ty, dir, as_of, 0, v) {
                    let k = choose|k: nat| k < 0 && #[trigger] self.reach(sources, ty, dir, as_of, k, v);
                }
            }
        } else {
            let c: nat = (d - 1) as nat;
            let prev = self.layer(sources, ty, dir, as_of, c);
            let seen = self.settled(sources, ty, dir, as_of, c);
            let found = self.gather(prev, ty, dir, as_of);
            self.lemma_layers(sources, ty, dir, as_of, c);
            self.lemma_gather(prev, ty, dir, as_of);
            lemma_unseen(seen, found);
            assert(c + 1 == d);
            assert(here == unseen(seen, found));
            assert forall|v: u32| here.contains(v) <==> self.at_distance(sources, ty, dir, as_of, d, v) by {
                self.lemma_next_layer(sources, ty, dir, as_of, c, v);
                self.lemma_nearer_step(sources, ty, dir, as_of, c, v);
                assert(here.contains(v) <==> found.contains(v) && !seen.contains(v));
                assert(seen.contains(v) <==> self.nearer(sources, ty, dir, as_of, d, v));
                assert(found.contains(v) <==> exists|u: u32| #[trigger]
                    prev.contains(u) && self.linked(u as int, v, ty, dir, as_of));
                if here.contains(v) {
                    let u = choose|u: u32| #[trigger]
                        prev.contains(u) && self.linked(u as int, v, ty, dir, as_of);
                    assert(self.at_distance(sources, ty, dir, as_of, c, u));
                }
                if self.at_distance(sources, ty, dir, as_of, d, v) {
                    let u = choose|u: u32| #[trigger]
                        self.at_distance(sources, ty, dir, as_of, c, u) && self.linked(
                            u as int,
                            v,
                            ty,
                            dir,
                            as_of,
                        );
                    assert(prev.contains(u));
                    assert(found.contains(v));
                }
            }
            assert(done == seen + here);
            assert forall|v: u32| done.contains(v) <==> seen.contains(v) || here.contains(v) by {
                if seen.contains(v) {
                    let i = choose|i: int| 0 <= i < seen.len() && seen[i] == v;
                    assert(done[i] == v);
                }
                if here.contains(v) {
                    let i = choose|i: int| 0 <= i < here.len() && here[i] == v;
                    assert(done[seen.len() + i] == v);
                }
                if done.contains(v) {
                    let i = choose|i: int| 0 <= i < done.len() && done[i] == v;
                    if i < seen.len() {
                        assert(seen[i] == v);
                    } else {
                        assert(here[i - seen.len()] == v);
                    }
                }
            }
            assert forall|v: u32| done.contains(v) <==> self.nearer(sources, ty, dir, as_of, d + 1, v) by {
                self.lemma_nearer_step(sources, ty, dir, as_of, d, v);
            }
        }
    }

    /// The search returns exactly the nodes whose distance from the live
    /// sources is at least 1 and lies between `min` and `max`, each once.
    pub proof fn lemma_bfs(
        self,
        sources: Seq<u32>,
        ty: Option<u8>,
        dir: Direction,
        as_of: Option<i64>,
        min: nat,
        max: nat,
    )
        ensures
            self.bfs(sources, ty, dir, as_of, min, max).no_duplicates(),
            forall|v: u32|
                self.bfs(sources, ty, dir, as_of, min, max).contains(v) <==> self.in_range(
                    sources,
                    ty,
                    dir,
                    as_of,
                    min,
                    max,
                    v,
                ),
            forall|v: u32|
                self.bfs(sources, ty, dir, as_of, min, max).contains(v) ==> self.live(v as int),
        decreases max,
    {
        let all = self.bfs(sources, ty, dir, as_of, min, max);
        if max == 0 || max < min {
            assert forall|v: u32| !self.in_range(sources, ty, dir, as_of, min, max, v) by {
                if self.in_range(sources, ty, dir, as_of, min, max, v) {
                    let d = choose|d: nat|
                        1 <= d && min <= d <= max && #[trigger] self.at_distance(
                            sources,
                            ty,
                            dir,
                            as_of,
                            d,
                            v,
                        );
                }
            }
        } else {
            let c: nat = (max - 1) as nat;
            let base = self.bfs(sources, ty, dir, as_of, min, c);
            let last = self.layer(sources, ty, dir, as_of, max);
            self.lemma_bfs(sources, ty, dir, as_of, min, c);
            self.lemma_layers(sources, ty, dir, as_of, max);
            assert(c + 1 == max);
            assert(all == base + last);
            assert forall|v: u32| all.contains(v) <==> base.contains(v) || last.contains(v) by {
                if base.contains(v) {
                    let i = choose|i: int| 0 <= i < base.len() && base[i] == v;
                    assert(all[i] == v);
                }
                if last.contains(v) {
                    let i = choose|i: int| 0 <= i < last.len() && last[i] == v;
                    assert(all[base.len() + i] == v);
                }
                if all.contains(v) {
                    let i = choose|i: int| 0 <= i < all.len() && all[i] == v;
                    if i < base.len() {
                        assert(base[i] == v);
                    } else {
                        assert(last[i - base.len()] == v);
                    }
                }
            }
            assert forall|v: u32|
                all.contains(v) <==> self.in_range(sources, ty, dir, as_of, min, max, v) by {
                self.lemma_in_range_step(sources, ty, dir, as_of, min, c, v);
            }
            assert forall|v: u32| all.contains(v) implies self.live(v as int) by {
                if last.contains(v) {
                    assert(self.at_distance(sources, ty, dir, as_of, max, v));
                    self.lemma_reached_is_live(sources, ty, dir, as_of, max, v);
                } else {
                    assert(base.contains(v));
                }
            }
            assert forall|a: int, b: int|
                0 <= a < all.len() && 0 <= b < all.len() && a != b implies all[a] != all[b] by {
                if a < base.len() && b >= base.len() {
                    assert(base[a] == all[a]);
                    assert(base.contains(all[a]));
                    assert(last[b - base.len()] == all[b]);
                    assert(last.contains(all[b]));
                    self.lemma_in_range_step(sources, ty, dir, as_of, min, c, all[a]);
                    assert(self.in_range(sources, ty, dir, as_of, min, c, all[a]));
                    assert(self.nearer(sources, ty, dir, as_of, max, all[a]));
                    assert(self.at_distance(sources, ty, dir, as_of, max, all[b]));
                } else if b < base.len() && a >= base.len() {
                    assert(base[b] == all[b]);
                    assert(base.contains(all[b]));
                    assert(last[a - base.len()] == all[a]);
                    assert(last.contains(all[a]));
                    self.lemma_in_range_step(sources, ty, dir, as_of, min, c, all[b]);
                    assert(self.in_range(sources, ty, dir, as_of, min, c, all[b]));
                    assert(self.nearer(sources, ty, dir, as_of, max, all[b]));
                    assert(self.at_distance(sources, ty, dir, as_of, max, all[a]));
                } else if a >= base.len() {
                    assert(last[a - base.len()] == all[a]);
                    assert(last[b - base.len()] == all[b]);
                } else {
                    assert(base[a] == all[a]);
                    assert(base[b] == all[b]);
                }
            }
        }
    }

    /// `n` single hops in a row, one at least, reach exactly the nodes to
    /// which a walk of `n` edges leads.
    pub proof fn lemma_hops(
        self,
        sources: Seq<u32>,
        ty: Option<u8>,
        dir: Direction,
        as_of: Option<i64>,
        n: nat,
    )
        requires
            n >= 1,
        ensures
            forall|v: u32|
                self.hops(sources, ty, dir, as_of, n).contains(v) <==> self.reach(
                    sources,
                    ty,
                    dir,
                    as_of,
                    n,
                    v,
                ),
        decreases n,
    {
        let c: nat = (n - 1) as nat;
        let prev = self.hops(sources, ty, dir, as_of, c);
        let here = self.hops(sources, ty, dir, as_of, n);
        self.lemma_gather(prev, ty, dir, as_of);
        assert(c + 1 == n);
        if n > 1 {
            self.lemma_hops(sources, ty, dir, as_of, c);
            self.lemma_gather_is_next_reach(sources, ty, dir, as_of, c, prev);
        } else {
            assert(prev == sources);
            assert forall|v: u32| here.contains(v) <==> self.reach(sources, ty, dir, as_of, 1, v) by {
                self.lemma_reach_step(sources, ty, dir, as_of, 0, v);
                if here.contains(v) {
                    let u = choose|u: u32| #[trigger]
                        sources.contains(u) && self.linked(u as int, v, ty, dir, as_of);
                    assert(self.reach(sources, ty, dir, as_of, 0, u));
                }
                if self.reach(sources, ty, dir, as_of, 1, v) {
                    let u = choose|u: u32|
                        self.reach(sources, ty, dir, as_of, 0, u) && #[trigger] self.linked(
                            u as int,
                            v,
                            ty,
                            dir,
                            as_of,
                        );
                    assert(sources.contains(u));
                }
            }
        }
    }

    /// The search for exactly `d` hops returns what `d` single hops in a
    /// row reach, less the sources, provided that none of those nodes is
    /// also reached by fewer hops, one at least.
    pub proof fn lemma_exact_depth_is_repeated_hops(
        self,
        sources: Seq<u32>,
        ty: Option<u8>,
        dir: Direction,
        as_of: Option<i64>,
        d: nat,
    )
        requires
            d >= 1,
            forall|w: u32, k: nat|
                1 <= k < d && #[trigger] self.hops(sources, ty, dir, as_of, k).contains(w) && self.hops(
                    sources,
                    ty,
                    dir,
                    as_of,
                    d,
                ).contains(w) ==> sources.contains(w),
        ensures
            forall|v: u32| #[trigger]
                self.bfs(sources, ty, dir, as_of, d, d).contains(v) <==> self.hops(
                    sources,
                    ty,
                    dir,
                    as_of,
                    d,
                ).contains(v) && !sources.contains(v),
    {
        self.lemma_bfs(sources, ty, dir, as_of, d, d);
        self.lemma_hops(sources, ty, dir, as_of, d);
        assert forall|w: u32, k: nat|
            1 <= k < d && #[trigger] self.reach(sources, ty, dir, as_of, k, w) && self.reach(
                sources,
                ty,
                dir,
                as_of,
                d,
                w,
            ) implies sources.contains(w) by {
            self.lemma_hops(sources, ty, dir, as_of, k);
            assert(self.hops(sources, ty, dir, as_of, k).contains(w));
        }
        assert forall|v: u32| #[trigger]
            self.bfs(sources, ty, dir, as_of, d, d).contains(v) <==> self.hops(
                sources,
                ty,
                dir,
                as_of,
                d,
            ).contains(v) && !sources.contains(v) by {
            self.lemma_exact_depth(sources, ty, dir, as_of, d, v);
            assert(self.bfs(sources, ty, dir, as_of, d, d).contains(v) <==> self.in_range(
                sources,
                ty,
                dir,
                as_of,
                d,
                d,
                v,
            ));
            assert(self.hops(sources, ty, dir, as_of, d).contains(v) <==> self.reach(
                sources,
                ty,
                dir,
                as_of,
                d,
                v,
            ));
        }
    }

    /// Once a layer is empty, so is every later one.
    pub proof fn lemma_layers_stay_empty(
        self,
        sources: Seq<u32>,
        ty: Option<u8>,
        dir: Direction,
        as_of: Option<i64>,
        d: nat,
        e: nat,
    )
        requires
            self.layer(sources, ty, dir, as_of, d).len() == 0,
            d <= e,
        ensures
            self.layer(sources, ty, dir, as_of, e).len() == 0,
        decreases e - d,
    {
        if d < e {
            let c: nat = (e - 1) as nat;
            self.lemma_layers_stay_empty(sources, ty, dir, as_of, d, c);
            let prev = self.layer(sources, ty, dir, as_of, c);
            assert(prev =~= Seq::<u32>::empty());
            assert(self.gather(prev, ty, dir, as_of) =~= Seq::<u32>::empty());
        }
    }

    /// Beyond an empty layer the search finds nothing more.
    pub proof fn lemma_bfs_ends(
        self,
        sources: Seq<u32>,
        ty: Option<u8>,
        dir: Direction,
        as_of: Option<i64>,
        min: nat,
        d: nat,
        max: nat,
    )
        requires
            self.layer(sources, ty, dir, as_of, d).len() == 0,
            d <= max,
        ensures
            self.bfs(sources, ty, dir, as_of, min, max) == self.bfs(sources, ty, dir, as_of, min, d),
        decreases max - d,
    {
        if d < max {
            let c: nat = (max - 1) as nat;
            self.lemma_bfs_ends(sources, ty, dir, as_of, min, d, c);
            self.lemma_layers_stay_empty(sources, ty, dir, as_of, d, max);
            self.lemma_layers_stay_empty(sources, ty, dir, as_of, d, d);
            let last = self.layer(sources, ty, dir, as_of, max);
            assert(last =~= Seq::<u32>::empty());
            if max < min {
                self.lemma_bfs_below_min(sources, ty, dir, as_of, min, d);
            } else {
                assert(self.bfs(sources, ty, dir, as_of, min, max) =~= self.bfs(
                    sources,
                    ty,
                    dir,
                    as_of,
                    min,
                    c,
                ));
            }
        }
    }

    /// A search that may not go as deep as it must start finds nothing.
    pub proof fn lemma_bfs_below_min(
        self,
        sources: Seq<u32>,
        ty: Option<u8>,
        dir: Direction,
        as_of: Option<i64>,
        min: nat,
        max: nat,
    )
        requires
            max < min,
        ensures
            self.bfs(sources, ty, dir, as_of, min, max) == Seq::<u32>::empty(),
    {
    }
}

impl GraphIndex {
    /// Breadth-first search: the live nodes whose shortest walk from a live
    /// source, over admitted edges of type `ty` on side `dir` and over live
    /// nodes, has between `min_depth` and `max_depth` edges, and at least
    /// one. Each is returned once, in order of discovery; the sources
    /// themselves never are.
    pub fn reach_ids(
        &self,
        sources: &[u32],
        ty: Option<u8>,
        dir: Direction,
        min_depth: usize,
        max_depth: usize,
        as_of: Option<i64>,
    ) -> (r: Vec<u32>)
        requires
            self.wf(),
        ensures
            r@ == self@.bfs(sources@, ty, dir, as_of, min_depth as nat, max_depth as nat),
            r@.no_duplicates(),
            forall|v: u32|
                r@.contains(v) <==> self@.in_range(
                    sources@,
                    ty,
                    dir,
                    as_of,
                    min_depth as nat,
                    max_depth as nat,
                    v,
                ),
            forall|i: int| 0 <= i < r@.len() ==> r@[i] < self@.nodes.len(),
    {
        let ghost m = self@;
        let ghost src = sources@;
        let mut visited: HashSet<u32> = HashSet::new();
        let mut frontier: Vec<u32> = Vec::new();
        let mut i: usize = 0;
        while i < sources.len()
            invariant
                i <= sources.len(),
                m == self@,
                src == sources@,
                frontier@ == m.live_sources(src.take(i as int)),
                forall|v: u32| #[trigger] visited@.contains(v) <==> frontier@.contains(v),
            decreases sources.len() - i,
        {
            let s = sources[i];
            let ghost before = frontier@;
            proof {
                assert(src.take(i + 1).drop_last() =~= src.take(i as int));
                assert(src.take(i + 1).last() == s);
            }
            if !self.is_node_deleted(s) && !visited.contains(&s) {
                visited.insert(s);
                frontier.push(s);
                proof {
                    assert forall|v: u32| #[trigger]
                        visited@.contains(v) <==> frontier@.contains(v) by {
                        if before.contains(v) {
                            let k = choose|k: int| 0 <= k < before.len() && before[k] == v;
                            assert(frontier@[k] == v);
                        }
                        if v == s {
                            assert(frontier@[before.len() as int] == v);
                        }
                    }
                }
            }
            i += 1;
        }
        proof {
            assert(src.take(sources.len() as int) =~= src);
            assert(m.layer(src, ty, dir, as_of, 0) == m.live_sources(src));
            assert(m.settled(src, ty, dir, as_of, 0) == m.layer(src, ty, dir, as_of, 0));
        }
        let mut result: Vec<u32> = Vec::new();
        let mut depth: usize = 0;
        while depth < max_depth && frontier.len() > 0
            invariant
                depth <= max_depth,
                self.wf(),
                m == self@,
                src == sources@,
                frontier@ == m.layer(src, ty, dir, as_of, depth as nat),
                forall|v: u32| #[trigger]
                    visited@.contains(v) <==> m.settled(src, ty, dir, as_of, depth as nat).contains(v),
                result@ == m.bfs(src, ty, dir, as_of, min_depth as nat, depth as nat),
            decreases max_depth - depth,
        {
            let found = self.traverse_ids(frontier.as_slice(), ty, dir, as_of);
            let ghost d: nat = depth as nat;
            let ghost d1: nat = (depth + 1) as nat;
            let ghost seen = m.settled(src, ty, dir, as_of, d);
            proof {
                m.lemma_gather(frontier@, ty, dir, as_of);
            }
            let mut next: Vec<u32> = Vec::new();
            let mut j: usize = 0;
            while j < found.len()
                invariant
                    j <= found.len(),
                    found@.no_duplicates(),
                    next@ == unseen(seen, found@.take(j as int)),
                    forall|v: u32| #[trigger]
                        visited@.contains(v) <==> seen.contains(v) || next@.contains(v),
                decreases found.len() - j,
            {
                let v = found[j];
                let ghost before = next@;
                proof {
                    assert(found@.take(j + 1).drop_last() =~= found@.take(j as int));
                    assert(found@.take(j + 1).last() == v);
                    lemma_unseen(seen, found@.take(j as int));
                    if found@.take(j as int).contains(v) {
                        let k = choose|k: int|
                            0 <= k < found@.take(j as int).len() && found@.take(j as int)[k] == v;
                        assert(found@[k] == found@[j as int]);
                    }
                }
                if !visited.contains(&v) {
                    visited.insert(v);
                    next.push(v);
                    proof {
                        assert forall|w: u32| #[trigger]
                            visited@.contains(w) <==> seen.contains(w) || next@.contains(w) by {
                            if before.contains(w) {
                                let k = choose|k: int| 0 <= k < before.len() && before[k] == w;
                                assert(next@[k] == w);
                            }
                            if w == v {
                                assert(next@[before.len() as int] == w);
                            }
                        }
                    }
                }
                j += 1;
            }
            proof {
                assert(found@.take(found.len() as int) =~= found@);
                assert(d1 - 1 == d);
                assert(next@ == m.layer(src, ty, dir, as_of, d1));
                let done = m.settled(src, ty, dir, as_of, d1);
                assert(done == seen + next@);
                assert forall|v: u32| #[trigger] visited@.contains(v) <==> done.contains(v) by {
                    if seen.contains(v) {
                        let k = choose|k: int| 0 <= k < seen.len() && seen[k] == v;
                        assert(done[k] == v);
                    }
                    if next@.contains(v) {
                        let k = choose|k: int| 0 <= k < next@.len() && next@[k] == v;
                        assert(done[seen.len() + k] == v);
                    }
                    if done.contains(v) {
                        let k = choose|k: int| 0 <= k < done.len() && done[k] == v;
                        if k < seen.len() {
                            assert(seen[k] == v);
                        } else {
                            assert(next@[k - seen.len()] == v);
                        }
                    }
                }
            }
            depth += 1;
            if depth >= min_depth {
                let mut copy = next.clone();
                result.append(&mut copy);
            }
            frontier = next;
        }
        proof {
            if depth < max_depth {
                m.lemma_bfs_ends(
                    src,
                    ty,
                    dir,
                    as_of,
                    min_depth as nat,
                    depth as nat,
                    max_depth as nat,
                );
            }
            m.lemma_bfs(src, ty, dir, as_of, min_depth as nat, max_depth as nat);
            self.lemma_wf();
            assert forall|a: int| 0 <= a < result@.len() implies result@[a] < m.nodes.len() by {
                assert(result@.contains(result@[a]));
                assert(m.live(result@[a] as int));
            }
        }
        result
    }

    /// Breadth-first search from the named sources: the names of the live
    /// nodes whose shortest admitted walk from a known, live source has
    /// between `min_depth` and `max_depth` edges, and at least one. Each is
    /// returned once, in order of discovery; an unknown edge type finds
    /// nothing.
    pub fn traverse_recursive(
        &self,
        sources: &[String],
        edge_type: Option<&str>,
        direction: Direction,
        min_depth: usize,
        max_depth: usize,
        as_of: Option<i64>,
    ) -> (r: Vec<String>)
        requires
            self.wf(),
        ensures
            texts(r@) == self@.traverse_recursive(
                texts(sources@),
                label_text(edge_type),
                direction,
                as_of,
                min_depth as nat,
                max_depth as nat,
            ),
            texts(r@).no_duplicates(),
            forall|name: Seq<char>|
                texts(r@).contains(name) <==> self@.in_range_name(
                    texts(sources@),
                    label_text(edge_type),
                    direction,
                    as_of,
                    min_depth as nat,
                    max_depth as nat,
                    name,
                ),
    {
        match self.resolve_type(edge_type) {
            None => {
                let r: Vec<String> = Vec::new();
                assert(texts(r@) =~= Seq::<Seq<char>>::empty());
                r
            },
            Some(ty) => {
                let ids = self.resolve_ids(sources);
                let found = self.reach_ids(ids.as_slice(), ty, direction, min_depth, max_depth, as_of);
                let r = self.names_of(found.as_slice());
                proof {
                    let m = self@;
                    let names = texts(r@);
                    self.lemma_wf();
                    assert forall|a: int, b: int|
                        0 <= a < names.len() && 0 <= b < names.len() && a != b implies names[a]
                        != names[b] by {
                        assert(found@[a] != found@[b]);
                    }
                    assert forall|name: Seq<char>|
                        names.contains(name) <==> m.in_range_name(
                            texts(sources@),
                            label_text(edge_type),
                            direction,
                            as_of,
                            min_depth as nat,
                            max_depth as nat,
                            name,
                        ) by {
                        if names.contains(name) {
                            let a = choose|a: int| 0 <= a < names.len() && names[a] == name;
                            assert(found@.contains(found@[a]));
                        }
                        if m.in_range_name(
                            texts(sources@),
                            label_text(edge_type),
                            direction,
                            as_of,
                            min_depth as nat,
                            max_depth as nat,
                            name,
                        ) {
                            let v = choose|v: u32|
                                v < m.nodes.len() && m.nodes[v as int] == name && #[trigger] m.in_range(
                                    ids@,
                                    ty,
                                    direction,
                                    as_of,
                                    min_depth as nat,
                                    max_depth as nat,
                                    v,
                                );
                            assert(found@.contains(v));
                            let a = choose|a: int| 0 <= a < found@.len() && found@[a] == v;
                            assert(names[a] == name);
                        }
                    }
                }
                r
            },
        }
    }
}

} // verus!
