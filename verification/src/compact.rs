//! Compaction: every adjacency list is cut down to its live records, sorted
//! and freed of duplicates.

use crate::edge::{Direction, EdgeRecord};
use crate::model::GraphModel;
use crate::topology::{lists_view, GraphIndex};
use vstd::prelude::*;

verus! {

/// Where a lower bound sorts: an absent one lies below every timestamp.
pub open spec fn from_key(valid_from: Option<i64>) -> int {
    match valid_from {
        None => i64::MIN - 1,
        Some(t) => t as int,
    }
}

/// Where an upper bound sorts: an absent one lies above every timestamp.
pub open spec fn to_key(valid_to: Option<i64>) -> int {
    match valid_to {
        None => i64::MAX + 1,
        Some(t) => t as int,
    }
}

/// The order of compacted lists: by type, then peer, then lower bound, then
/// upper bound. Of two records that agree in all four, a live one sorts
/// before a tombstoned one.
pub open spec fn key_lt(a: EdgeRecord, b: EdgeRecord) -> bool {
    if a.type_id != b.type_id {
        a.type_id < b.type_id
    } else if a.peer != b.peer {
        a.peer < b.peer
    } else if from_key(a.valid_from) != from_key(b.valid_from) {
        from_key(a.valid_from) < from_key(b.valid_from)
    } else if to_key(a.valid_to) != to_key(b.valid_to) {
        to_key(a.valid_to) < to_key(b.valid_to)
    } else {
        !a.deleted && b.deleted
    }
}

/// Each record sorts before all that follow it.
pub open spec fn strictly_sorted(list: Seq<EdgeRecord>) -> bool {
    forall|i: int, j: int| 0 <= i < j < list.len() ==> key_lt(list[i], list[j])
}

/// Whether compaction keeps a record: it is not tombstoned, its owner is
/// live, and its peer is.
pub open spec fn kept(deleted: Seq<bool>, owner_live: bool, r: EdgeRecord) -> bool {
    !r.deleted && owner_live && r.peer < deleted.len() && !deleted[r.peer as int]
}

/// The order is transitive.
pub proof fn lemma_key_lt_transitive(a: EdgeRecord, b: EdgeRecord, c: EdgeRecord)
    requires
        key_lt(a, b),
        key_lt(b, c),
    ensures
        key_lt(a, c),
{
}

/// Of two records, one sorts before the other unless they are the same.
pub proof fn lemma_key_total(a: EdgeRecord, b: EdgeRecord)
    ensures
        key_lt(a, b) || key_lt(b, a) || a == b,
        !(key_lt(a, b) && key_lt(b, a)),
        !key_lt(a, a),
{
}

/// A compacted list holds no record twice.
pub proof fn lemma_sorted_distinct(list: Seq<EdgeRecord>)
    requires
        strictly_sorted(list),
    ensures
        list.no_duplicates(),
{
    assert forall|i: int, j: int| 0 <= i < list.len() && 0 <= j < list.len() && i != j implies list[i]
        != list[j] by {
        if i < j {
            assert(key_lt(list[i], list[j]));
        } else {
            assert(key_lt(list[j], list[i]));
        }
    }
}

/// Two compacted lists of the same records are the same list: what a list
/// holds decides what compaction makes of it.
pub proof fn lemma_sorted_unique(a: Seq<EdgeRecord>, b: Seq<EdgeRecord>)
    requires
        strictly_sorted(a),
        strictly_sorted(b),
        forall|r: EdgeRecord| a.contains(r) <==> b.contains(r),
    ensures
        a == b,
    decreases a.len(),
{
    if a.len() == 0 {
        if b.len() > 0 {
            assert(b.contains(b[0]));
        }
        assert(a =~= b);
    } else {
        if b.len() == 0 {
            assert(a.contains(a[0]));
        }
        let x = a.last();
        let y = b.last();
        assert(a.contains(x)) by {
            assert(a[a.len() - 1] == x);
        }
        assert(b.contains(y)) by {
            assert(b[b.len() - 1] == y);
        }
        let i = choose|i: int| 0 <= i < b.len() && b[i] == x;
        let j = choose|j: int| 0 <= j < a.len() && a[j] == y;
        if i < b.len() - 1 {
            assert(key_lt(b[i], b[b.len() - 1]));
            if j < a.len() - 1 {
                assert(key_lt(a[j], a[a.len() - 1]));
            }
        }
        assert(x == y);
        let a0 = a.drop_last();
        let b0 = b.drop_last();
        assert forall|r: EdgeRecord| a0.contains(r) <==> b0.contains(r) by {
            if a0.contains(r) {
                let k = choose|k: int| 0 <= k < a0.len() && a0[k] == r;
                assert(a[k] == r);
                assert(key_lt(a[k], a[a.len() - 1]));
                assert(a.contains(r));
                let l = choose|l: int| 0 <= l < b.len() && b[l] == r;
                assert(b0[l] == r);
            }
            if b0.contains(r) {
                let k = choose|k: int| 0 <= k < b0.len() && b0[k] == r;
                assert(b[k] == r);
                assert(key_lt(b[k], b[b.len() - 1]));
                assert(b.contains(r));
                let l = choose|l: int| 0 <= l < a.len() && a[l] == r;
                assert(a0[l] == r);
            }
        }
        assert(strictly_sorted(a0)) by {
            assert forall|p: int, q: int| 0 <= p < q < a0.len() implies key_lt(a0[p], a0[q]) by {
                assert(key_lt(a[p], a[q]));
            }
        }
        assert(strictly_sorted(b0)) by {
            assert forall|p: int, q: int| 0 <= p < q < b0.len() implies key_lt(b0[p], b0[q]) by {
                assert(key_lt(b[p], b[q]));
            }
        }
        lemma_sorted_unique(a0, b0);
        assert(a =~= a0.push(x));
        assert(b =~= b0.push(y));
    }
}

impl GraphModel {
    /// Whether `after` is what compaction makes of the list `before` of node
    /// `owner`: the kept records, sorted, each once.
    pub open spec fn compacted_list(self, owner: int, before: Seq<EdgeRecord>, after: Seq<EdgeRecord>) -> bool {
        &&& strictly_sorted(after)
        &&& forall|r: EdgeRecord|
            after.contains(r) <==> before.contains(r) && kept(self.deleted, self.live(owner), r)
    }

    /// Whether `self` is what compaction makes of `old`: names and
    /// tombstones stay, and every list is compacted.
    pub open spec fn compacted_from(self, old: GraphModel) -> bool {
        &&& self.nodes == old.nodes
        &&& self.types == old.types
        &&& self.deleted == old.deleted
        &&& self.outgoing.len() == old.outgoing.len()
        &&& self.incoming.len() == old.incoming.len()
        &&& forall|u: int|
            0 <= u < old.outgoing.len() ==> old.compacted_list(
                u,
                old.outgoing[u],
                #[trigger] self.outgoing[u],
            )
        &&& forall|u: int|
            0 <= u < old.incoming.len() ==> old.compacted_list(
                u,
                old.incoming[u],
                #[trigger] self.incoming[u],
            )
    }

    /// Compaction keeps the invariant: what it drops on one side, it drops
    /// on the other.
    pub proof fn lemma_compacted_wf(self, old: GraphModel)
        requires
            old.wf(),
            self.compacted_from(old),
        ensures
            self.wf(),
    {
        self.lemma_compacted_mirrored(old, Direction::Outgoing);
        self.lemma_compacted_mirrored(old, Direction::Incoming);
    }

    /// One side of a compacted index mirrors the other.
    proof fn lemma_compacted_mirrored(self, old: GraphModel, dir: Direction)
        requires
            old.wf(),
            self.compacted_from(old),
        ensures
            self.mirrored(dir),
    {
        let back = dir.spec_flip();
        assert(old.mirrored(dir));
        assert forall|u: int, i: int|
            0 <= u < self.adj(dir).len() && 0 <= i < self.adj(dir)[u].len() implies {
            &&& (#[trigger] self.adj(dir)[u][i]).peer < self.nodes.len()
            &&& self.adj(dir)[u][i].type_id < self.types.len()
            &&& self.adj(back)[self.adj(dir)[u][i].peer as int].contains(self.adj(dir)[u][i].mirror(u))
        } by {
            let r = self.adj(dir)[u][i];
            assert(old.compacted_list(u, old.adj(dir)[u], self.adj(dir)[u]));
            assert(self.adj(dir)[u].contains(r));
            assert(old.adj(dir)[u].contains(r));
            let k = choose|k: int| 0 <= k < old.adj(dir)[u].len() && old.adj(dir)[u][k] == r;
            assert(old.adj(dir)[u][k].peer < old.nodes.len());
            let v = r.peer as int;
            assert(old.adj(back)[v].contains(r.mirror(u)));
            assert(old.compacted_list(v, old.adj(back)[v], self.adj(back)[v]));
            assert(kept(old.deleted, old.live(v), r.mirror(u)));
        }
    }
}

/// Whether `a` sorts before `b`.
pub fn key_less(a: &EdgeRecord, b: &EdgeRecord) -> (r: bool)
    ensures
        r == key_lt(*a, *b),
{
    if a.type_id != b.type_id {
        return a.type_id < b.type_id;
    }
    if a.peer != b.peer {
        return a.peer < b.peer;
    }
    match (a.valid_from, b.valid_from) {
        (None, Some(_)) => {
            return true;
        },
        (Some(_), None) => {
            return false;
        },
        (Some(x), Some(y)) => {
            if x != y {
                return x < y;
            }
        },
        (None, None) => {},
    }
    match (a.valid_to, b.valid_to) {
        (Some(_), None) => {
            return true;
        },
        (None, Some(_)) => {
            return false;
        },
        (Some(x), Some(y)) => {
            if x != y {
                return x < y;
            }
        },
        (None, None) => {},
    }
    !a.deleted && b.deleted
}

/// Merges two compacted lists into one.
fn merge_unique(a: &Vec<EdgeRecord>, b: &Vec<EdgeRecord>) -> (r: Vec<EdgeRecord>)
    requires
        strictly_sorted(a@),
        strictly_sorted(b@),
    ensures
        strictly_sorted(r@),
        forall|x: EdgeRecord| r@.contains(x) <==> a@.contains(x) || b@.contains(x),
{
    let mut out: Vec<EdgeRecord> = Vec::new();
    let mut i: usize = 0;
    let mut j: usize = 0;
    while i < a.len() || j < b.len()
        invariant
            i <= a.len(),
            j <= b.len(),
            strictly_sorted(a@),
            strictly_sorted(b@),
            strictly_sorted(out@),
            forall|k: int, p: int| 0 <= k < out@.len() && i <= p < a@.len() ==> key_lt(out@[k], a@[p]),
            forall|k: int, p: int| 0 <= k < out@.len() && j <= p < b@.len() ==> key_lt(out@[k], b@[p]),
            forall|x: EdgeRecord| #[trigger]
                out@.contains(x) <==> a@.take(i as int).contains(x) || b@.take(j as int).contains(x),
        decreases a.len() - i + b.len() - j,
    {
        let ghost before = out@;
        let ghost ai = a@.take(i as int);
        let ghost bj = b@.take(j as int);
        let take_a = i < a.len() && (j >= b.len() || !key_less(&b[j], &a[i]));
        let take_b = j < b.len() && (i >= a.len() || !key_less(&a[i], &b[j]));
        let x = if take_a {
            a[i]
        } else {
            b[j]
        };
        proof {
            if take_a && take_b {
                lemma_key_total(a@[i as int], b@[j as int]);
                assert(a@[i as int] == b@[j as int]);
            }
            if !take_a {
                assert(take_b) by {
                    if i < a.len() && j < b.len() {
                        lemma_key_total(a@[i as int], b@[j as int]);
                    }
                }
            }
            assert forall|p: int| i <= p < a@.len() && !(take_a && p == i) implies key_lt(x, a@[p]) by {
                if take_a {
                    assert(key_lt(a@[i as int], a@[p]));
                } else {
                    lemma_key_total(a@[i as int], b@[j as int]);
                    if p > i {
                        assert(key_lt(a@[i as int], a@[p]));
                        lemma_key_lt_transitive(x, a@[i as int], a@[p]);
                    }
                }
            }
            assert forall|p: int| j <= p < b@.len() && !(take_b && p == j) implies key_lt(x, b@[p]) by {
                if take_b {
                    assert(key_lt(b@[j as int], b@[p]));
                } else {
                    lemma_key_total(a@[i as int], b@[j as int]);
                    if p > j {
                        assert(key_lt(b@[j as int], b@[p]));
                        lemma_key_lt_transitive(x, b@[j as int], b@[p]);
                    }
                }
            }
        }
        out.push(x);
        if take_a {
            i += 1;
        }
        if take_b {
            j += 1;
        }
        proof {
            let ai2 = a@.take(i as int);
            let bj2 = b@.take(j as int);
            assert forall|p: int, q: int| 0 <= p < q < out@.len() implies key_lt(out@[p], out@[q]) by {
                if q < before.len() {
                    assert(key_lt(before[p], before[q]));
                } else {
                    if take_a {
                        assert(key_lt(before[p], a@[i - 1]));
                    } else {
                        assert(key_lt(before[p], b@[j - 1]));
                    }
                }
            }
            assert forall|y: EdgeRecord| #[trigger]
                out@.contains(y) <==> ai2.contains(y) || bj2.contains(y) by {
                assert(before.contains(y) <==> ai.contains(y) || bj.contains(y));
                if out@.contains(y) {
                    let k = choose|k: int| 0 <= k < out@.len() && out@[k] == y;
                    if k < before.len() {
                        assert(before[k] == y);
                        assert(before.contains(y));
                        if ai.contains(y) {
                            let p = choose|p: int| 0 <= p < ai.len() && ai[p] == y;
                            assert(ai2[p] == y);
                        } else {
                            let p = choose|p: int| 0 <= p < bj.len() && bj[p] == y;
                            assert(bj2[p] == y);
                        }
                    } else {
                        if take_a {
                            assert(ai2[i - 1] == y);
                        } else {
                            assert(bj2[j - 1] == y);
                        }
                    }
                }
                if ai2.contains(y) {
                    let p = choose|p: int| 0 <= p < ai2.len() && ai2[p] == y;
                    if p < ai.len() {
                        assert(ai[p] == y);
                        assert(before.contains(y));
                        let k = choose|k: int| 0 <= k < before.len() && before[k] == y;
                        assert(out@[k] == y);
                    } else {
                        assert(out@[before.len() as int] == y);
                    }
                }
                if bj2.contains(y) {
                    let p = choose|p: int| 0 <= p < bj2.len() && bj2[p] == y;
                    if p < bj.len() {
                        assert(bj[p] == y);
                        assert(before.contains(y));
                        let k = choose|k: int| 0 <= k < before.len() && before[k] == y;
                        assert(out@[k] == y);
                    } else {
                        assert(out@[before.len() as int] == y);
                    }
                }
            }
        }
    }
    proof {
        assert(a@.take(a.len() as int) =~= a@);
        assert(b@.take(b.len() as int) =~= b@);
    }
    out
}

/// Whether compaction keeps the record.
fn is_kept(deleted: &Vec<bool>, owner_live: bool, r: &EdgeRecord) -> (k: bool)
    ensures
        k == kept(deleted@, owner_live, *r),
{
    let v = r.peer as usize;
    !r.deleted && owner_live && v < deleted.len() && !deleted[v]
}

/// The records of `list`, sorted, each once.
pub fn sorted_set(list: &Vec<EdgeRecord>) -> (r: Vec<EdgeRecord>)
    ensures
        strictly_sorted(r@),
        forall|x: EdgeRecord| r@.contains(x) <==> list@.contains(x),
{
    let none: Vec<bool> = Vec::new();
    proof {
        assert(list@.subrange(0, list@.len() as int) =~= list@);
    }
    compact_range(list, 0, list.len(), &none, true, true)
}

/// Among `list[lo..hi]`, all records where `keep_all` is set, else the kept
/// ones: sorted, each once.
fn compact_range(
    list: &Vec<EdgeRecord>,
    lo: usize,
    hi: usize,
    deleted: &Vec<bool>,
    owner_live: bool,
    keep_all: bool,
) -> (r: Vec<EdgeRecord>)
    requires
        lo <= hi <= list.len(),
    ensures
        strictly_sorted(r@),
        forall|x: EdgeRecord|
            r@.contains(x) <==> list@.subrange(lo as int, hi as int).contains(x) && (keep_all || kept(
                deleted@,
                owner_live,
                x,
            )),
    decreases hi - lo,
{
    let ghost part = list@.subrange(lo as int, hi as int);
    if hi - lo == 0 {
        return Vec::new();
    }
    if hi - lo == 1 {
        let mut out: Vec<EdgeRecord> = Vec::new();
        if keep_all || is_kept(deleted, owner_live, &list[lo]) {
            out.push(list[lo]);
            proof {
                assert(out@[0] == list@[lo as int]);
            }
        }
        proof {
            assert(part[0] == list@[lo as int]);
            assert forall|x: EdgeRecord|
                out@.contains(x) <==> part.contains(x) && (keep_all || kept(deleted@, owner_live, x)) by {
                if part.contains(x) {
                    let k = choose|k: int| 0 <= k < part.len() && part[k] == x;
                    assert(k == 0);
                }
            }
        }
        return out;
    }
    let mid = lo + (hi - lo) / 2;
    let left = compact_range(list, lo, mid, deleted, owner_live, keep_all);
    let right = compact_range(list, mid, hi, deleted, owner_live, keep_all);
    let out = merge_unique(&left, &right);
    proof {
        let lp = list@.subrange(lo as int, mid as int);
        let rp = list@.subrange(mid as int, hi as int);
        assert(part =~= lp + rp);
        assert forall|x: EdgeRecord| part.contains(x) <==> lp.contains(x) || rp.contains(x) by {
            if part.contains(x) {
                let k = choose|k: int| 0 <= k < part.len() && part[k] == x;
                if k < lp.len() {
                    assert(lp[k] == x);
                } else {
                    assert(rp[k - lp.len()] == x);
                }
            }
            if lp.contains(x) {
                let k = choose|k: int| 0 <= k < lp.len() && lp[k] == x;
                assert(part[k] == x);
            }
            if rp.contains(x) {
                let k = choose|k: int| 0 <= k < rp.len() && rp[k] == x;
                assert(part[lp.len() + k] == x);
            }
        }
    }
    out
}

/// `Vec::shrink_to_fit`: gives spare capacity back and keeps the contents.
#[verifier::external_body]
fn release_spare(list: &mut Vec<EdgeRecord>)
    ensures
        final(list)@ == old(list)@,
{
    list.shrink_to_fit();
}

/// Compacts every list of one side.
fn compact_side(lists: &mut Vec<Vec<EdgeRecord>>, deleted: &Vec<bool>)
    requires
        old(lists)@.len() == deleted@.len(),
    ensures
        final(lists)@.len() == old(lists)@.len(),
        forall|u: int|
            0 <= u < old(lists)@.len() ==> {
                &&& strictly_sorted(#[trigger] final(lists)@[u]@)
                &&& forall|r: EdgeRecord|
                    final(lists)@[u]@.contains(r) <==> old(lists)@[u]@.contains(r) && kept(
                        deleted@,
                        !deleted@[u],
                        r,
                    )
            },
{
    let mut u: usize = 0;
    while u < lists.len()
        invariant
            u <= lists.len(),
            lists@.len() == old(lists)@.len(),
            lists@.len() == deleted@.len(),
            forall|w: int| u <= w < lists@.len() ==> lists@[w] == old(lists)@[w],
            forall|w: int|
                0 <= w < u ==> {
                    &&& strictly_sorted(#[trigger] lists@[w]@)
                    &&& forall|r: EdgeRecord|
                        lists@[w]@.contains(r) <==> old(lists)@[w]@.contains(r) && kept(
                            deleted@,
                            !deleted@[w],
                            r,
                        )
                },
        decreases lists.len() - u,
    {
        let owner_live = !deleted[u];
        let len = lists[u].len();
        let mut fresh = compact_range(&lists[u], 0, len, deleted, owner_live, false);
        proof {
            assert(lists@[u as int]@.subrange(0, len as int) =~= lists@[u as int]@);
        }
        release_spare(&mut fresh);
        lists.set(u, fresh);
        u += 1;
    }
}

impl GraphIndex {
    /// Compacts the index: every adjacency list loses its tombstoned records
    /// and the records with a tombstoned end, is sorted by type, peer and
    /// validity interval, loses its duplicates, and gives its spare capacity
    /// back. Afterwards the two sides still mirror each other, and no list
    /// holds a record twice.
    pub fn compact(&mut self)
        requires
            old(self).wf(),
        ensures
            final(self).wf(),
            final(self)@.compacted_from(old(self)@),
            final(self)@.mirrored(Direction::Outgoing),
            final(self)@.mirrored(Direction::Incoming),
            forall|u: int|
                0 <= u < final(self)@.outgoing.len() ==> (#[trigger] final(self)@.outgoing[u]).no_duplicates(),
            forall|u: int|
                0 <= u < final(self)@.incoming.len() ==> (#[trigger] final(self)@.incoming[u]).no_duplicates(),
    {
        proof {
            self.lemma_wf();
            self.lemma_repr();
        }
        compact_side(&mut self.outgoing, &self.node_deleted);
        compact_side(&mut self.incoming, &self.node_deleted);
        self.sorted = true;
        proof {
            let old_m = old(self)@;
            let m = self@;
            self.lemma_repr();
            assert forall|u: int| 0 <= u < old_m.outgoing.len() implies old_m.compacted_list(
                u,
                old_m.outgoing[u],
                #[trigger] m.outgoing[u],
            ) by {
                assert(strictly_sorted(self.outgoing@[u]@));
            }
            assert forall|u: int| 0 <= u < old_m.incoming.len() implies old_m.compacted_list(
                u,
                old_m.incoming[u],
                #[trigger] m.incoming[u],
            ) by {
                assert(strictly_sorted(self.incoming@[u]@));
            }
            m.lemma_compacted_wf(old_m);
            assert forall|u: int| 0 <= u < m.outgoing.len() implies strictly_sorted(
                #[trigger] m.outgoing[u],
            ) by {
                assert(old_m.compacted_list(u, old_m.outgoing[u], m.outgoing[u]));
            }
            assert forall|u: int| 0 <= u < m.incoming.len() implies strictly_sorted(
                #[trigger] m.incoming[u],
            ) by {
                assert(old_m.compacted_list(u, old_m.incoming[u], m.incoming[u]));
            }
            assert forall|u: int| 0 <= u < m.outgoing.len() implies (#[trigger] m.outgoing[u]).no_duplicates() by {
                assert(old_m.compacted_list(u, old_m.outgoing[u], m.outgoing[u]));
                lemma_sorted_distinct(m.outgoing[u]);
            }
            assert forall|u: int| 0 <= u < m.incoming.len() implies (#[trigger] m.incoming[u]).no_duplicates() by {
                assert(old_m.compacted_list(u, old_m.incoming[u], m.incoming[u]));
                lemma_sorted_distinct(m.incoming[u]);
            }
        }
    }
}

} // verus!
