//! Snapshots: the whole index as plain values, and back.

use crate::compact::{lemma_sorted_unique, sorted_set, strictly_sorted};
use crate::edge::{Direction, EdgeRecord};
use crate::error::GraphError;
use crate::interner::{texts, Interner, MAX_INTERNED};
use crate::model::GraphModel;
use crate::topology::{lists_view, GraphIndex};
use crate::types::{TypeInterner, MAX_EDGE_TYPES};
use vstd::prelude::*;

verus! {

/// The format version that this library writes and reads.
pub const SNAPSHOT_VERSION: u32 = 1;

/// All that an index holds, as plain values: the node names and edge-type
/// labels by index, the nodes' tombstones, and both adjacency lists of every
/// node. Its view is the model of the index that it was taken from.
#[derive(Debug, Clone)]
pub struct Snapshot {
    pub version: u32,
    pub nodes: Vec<String>,
    pub types: Vec<String>,
    pub deleted: Vec<bool>,
    pub outgoing: Vec<Vec<EdgeRecord>>,
    pub incoming: Vec<Vec<EdgeRecord>>,
}

impl View for Snapshot {
    type V = GraphModel;

    open spec fn view(&self) -> GraphModel {
        GraphModel {
            nodes: texts(self.nodes@),
            types: texts(self.types@),
            deleted: self.deleted@,
            outgoing: lists_view(self.outgoing@),
            incoming: lists_view(self.incoming@),
        }
    }
}

/// What loading the snapshot `s` yields: the index that it describes, where
/// its version is the current one and its contents obey the invariant; the
/// version mismatch, where the version is another; a decode error otherwise.
pub open spec fn load_outcome(s: Snapshot, r: Result<GraphIndex, GraphError>) -> bool {
    match r {
        Ok(g) => s.version == SNAPSHOT_VERSION && s@.wf() && g.wf() && g@ == s@,
        Err(e) => if s.version != SNAPSHOT_VERSION {
            e == (GraphError::SnapshotVersionMismatch { found: s.version })
        } else {
            !s@.wf() && e == (GraphError::DecodeError { row: None, column: None })
        },
    }
}

/// Saving and loading gives the same index back: a snapshot of a
/// well-formed index loads, and the loaded index has the model of the saved
/// one, so it answers every query alike.
pub proof fn lemma_round_trip(g: GraphIndex, s: Snapshot, r: Result<GraphIndex, GraphError>)
    requires
        g.wf(),
        s.version == SNAPSHOT_VERSION,
        s@ == g@,
        load_outcome(s, r),
    ensures
        r is Ok,
        r.unwrap().wf(),
        r.unwrap()@ == g@,
{
    g.lemma_wf();
}

/// Whether some record among the first `i` of node `u`, or of a node
/// before `u`, names `v` and is `x` as seen from `v`.
pub open spec fn mirror_upto(lists: Seq<Seq<EdgeRecord>>, u: int, i: int, v: int, x: EdgeRecord) -> bool {
    exists|a: int, b: int|
        0 <= a < lists.len() && 0 <= b < lists[a].len() && (a < u || (a == u && b < i)) && (
        #[trigger] lists[a][b]).peer == v && lists[a][b].mirror(a) == x
}

/// Whether some record of `lists` names `v` and is `x` as seen from `v`.
pub open spec fn mirror_image(lists: Seq<Seq<EdgeRecord>>, v: int, x: EdgeRecord) -> bool {
    mirror_upto(lists, lists.len() as int, 0, v, x)
}

/// Whether every record names a known peer and a known type.
pub open spec fn records_in_range(lists: Seq<Seq<EdgeRecord>>, nodes: int, types: int) -> bool {
    forall|u: int, i: int|
        0 <= u < lists.len() && 0 <= i < lists[u].len() ==> (#[trigger] lists[u][i]).peer < nodes
            && lists[u][i].type_id < types
}

/// Whether each incoming list holds exactly the mirror images of the
/// outgoing records that name its node.
pub open spec fn sides_agree(m: GraphModel) -> bool {
    forall|v: int, x: EdgeRecord|
        0 <= v < m.incoming.len() ==> (#[trigger] m.incoming[v].contains(x) <==> mirror_image(
            m.outgoing,
            v,
            x,
        ))
}

/// The two sides mirror each other exactly if all records are in range and
/// each incoming list holds the mirror images of the outgoing records.
pub proof fn lemma_sides_agree(m: GraphModel)
    requires
        m.outgoing.len() == m.nodes.len(),
        m.incoming.len() == m.nodes.len(),
        m.nodes.len() <= MAX_INTERNED,
    ensures
        (m.mirrored(Direction::Outgoing) && m.mirrored(Direction::Incoming)) <==> (records_in_range(
            m.outgoing,
            m.nodes.len() as int,
            m.types.len() as int,
        ) && records_in_range(m.incoming, m.nodes.len() as int, m.types.len() as int)
            && sides_agree(m)),
{
    let n = m.nodes.len() as int;
    let t = m.types.len() as int;
    if m.mirrored(Direction::Outgoing) && m.mirrored(Direction::Incoming) {
        assert(m.adj(Direction::Outgoing) == m.outgoing);
        assert(m.adj(Direction::Incoming) == m.incoming);
        assert forall|u: int, i: int|
            0 <= u < m.outgoing.len() && 0 <= i < m.outgoing[u].len() implies (
        #[trigger] m.outgoing[u][i]).peer < n && m.outgoing[u][i].type_id < t by {
            assert(m.adj(Direction::Outgoing)[u][i].peer < n);
        }
        assert forall|u: int, i: int|
            0 <= u < m.incoming.len() && 0 <= i < m.incoming[u].len() implies (
        #[trigger] m.incoming[u][i]).peer < n && m.incoming[u][i].type_id < t by {
            assert(m.adj(Direction::Incoming)[u][i].peer < n);
        }
        assert forall|v: int, x: EdgeRecord| 0 <= v < m.incoming.len() implies (
        #[trigger] m.incoming[v].contains(x) <==> mirror_image(m.outgoing, v, x)) by {
            if m.incoming[v].contains(x) {
                let j = choose|j: int| 0 <= j < m.incoming[v].len() && m.incoming[v][j] == x;
                assert(m.adj(Direction::Incoming)[v][j] == x);
                let u = x.peer as int;
                assert(m.adj(Direction::Outgoing)[u].contains(x.mirror(v)));
                let i = choose|i: int| 0 <= i < m.outgoing[u].len() && m.outgoing[u][i] == x.mirror(v);
                assert(m.outgoing[u][i].peer == v);
                assert(m.outgoing[u][i].mirror(u) == x);
            }
            if mirror_image(m.outgoing, v, x) {
                let (a, b) = choose|a: int, b: int|
                    0 <= a < m.outgoing.len() && 0 <= b < m.outgoing[a].len() && (a < m.outgoing.len()
                        || (a == m.outgoing.len() && b < 0)) && (#[trigger] m.outgoing[a][b]).peer == v
                        && m.outgoing[a][b].mirror(a) == x;
                assert(m.adj(Direction::Outgoing)[a][b].peer == v);
            }
        }
    }
    if records_in_range(m.outgoing, n, t) && records_in_range(m.incoming, n, t) && sides_agree(m) {
        assert forall|u: int, i: int|
            0 <= u < m.adj(Direction::Outgoing).len() && 0 <= i < m.adj(
                Direction::Outgoing,
            )[u].len() implies {
            &&& (#[trigger] m.adj(Direction::Outgoing)[u][i]).peer < m.nodes.len()
            &&& m.adj(Direction::Outgoing)[u][i].type_id < m.types.len()
            &&& m.adj(Direction::Outgoing.spec_flip())[m.adj(
                Direction::Outgoing,
            )[u][i].peer as int].contains(m.adj(Direction::Outgoing)[u][i].mirror(u))
        } by {
            let r = m.outgoing[u][i];
            let v = r.peer as int;
            assert(mirror_image(m.outgoing, v, r.mirror(u)));
            assert(m.incoming[v].contains(r.mirror(u)));
        }
        assert forall|v: int, j: int|
            0 <= v < m.adj(Direction::Incoming).len() && 0 <= j < m.adj(
                Direction::Incoming,
            )[v].len() implies {
            &&& (#[trigger] m.adj(Direction::Incoming)[v][j]).peer < m.nodes.len()
            &&& m.adj(Direction::Incoming)[v][j].type_id < m.types.len()
            &&& m.adj(Direction::Incoming.spec_flip())[m.adj(
                Direction::Incoming,
            )[v][j].peer as int].contains(m.adj(Direction::Incoming)[v][j].mirror(v))
        } by {
            let x = m.incoming[v][j];
            assert(m.incoming[v].contains(x));
            assert(mirror_image(m.outgoing, v, x));
            let (a, b) = choose|a: int, b: int|
                0 <= a < m.outgoing.len() && 0 <= b < m.outgoing[a].len() && (a < m.outgoing.len() || (a
                    == m.outgoing.len() && b < 0)) && (#[trigger] m.outgoing[a][b]).peer == v
                    && m.outgoing[a][b].mirror(a) == x;
            assert(x.peer == a);
            assert(x.mirror(v) == m.outgoing[a][b]);
        }
    }
}

/// An interner that holds exactly `names`, in their order; `None` where a
/// name occurs twice or the names are too many.
fn build_interner(names: &Vec<String>) -> (r: Option<Interner>)
    ensures
        match r {
            Some(t) => t.wf() && t@ == texts(names@),
            None => !(texts(names@).no_duplicates() && names@.len() <= MAX_INTERNED),
        },
{
    let ghost all = texts(names@);
    let mut t = Interner::new();
    let mut i: usize = 0;
    while i < names.len()
        invariant
            i <= names.len(),
            all == texts(names@),
            t.wf(),
            t@ == all.take(i as int),
        decreases names.len() - i,
    {
        if i as u64 >= MAX_INTERNED {
            return None;
        }
        match t.lookup_id(names[i].as_str()) {
            Some(id) => {
                proof {
                    assert(all[id as int] == all.take(i as int)[id as int]);
                    assert(all[id as int] == all[i as int]);
                }
                return None;
            },
            None => {},
        }
        let id = t.intern(names[i].as_str());
        proof {
            assert(all.take(i + 1) =~= all.take(i as int).push(all[i as int]));
        }
        i += 1;
    }
    proof {
        assert(all.take(names.len() as int) =~= all);
        t.lemma_wf();
    }
    Some(t)
}

/// A type interner that holds exactly `names`, in their order; `None` where
/// a label occurs twice or the labels are too many.
fn build_types(names: &Vec<String>) -> (r: Option<TypeInterner>)
    ensures
        match r {
            Some(t) => t.wf() && t@ == texts(names@),
            None => !(texts(names@).no_duplicates() && names@.len() <= MAX_EDGE_TYPES),
        },
{
    let ghost all = texts(names@);
    let mut t = TypeInterner::new();
    let mut i: usize = 0;
    while i < names.len()
        invariant
            i <= names.len(),
            all == texts(names@),
            t.wf(),
            t@ == all.take(i as int),
        decreases names.len() - i,
    {
        match t.lookup_id(names[i].as_str()) {
            Some(id) => {
                proof {
                    assert(all[id as int] == all.take(i as int)[id as int]);
                    assert(all[id as int] == all[i as int]);
                }
                return None;
            },
            None => {},
        }
        match t.intern(names[i].as_str()) {
            Ok(_) => {},
            Err(_) => {
                return None;
            },
        }
        proof {
            assert(all.take(i + 1) =~= all.take(i as int).push(all[i as int]));
        }
        i += 1;
    }
    proof {
        assert(all.take(names.len() as int) =~= all);
        t.lemma_wf();
    }
    Some(t)
}

/// Whether every record names a known peer and a known type.
fn check_records(lists: &Vec<Vec<EdgeRecord>>, nodes: usize, types: usize) -> (r: bool)
    ensures
        r == records_in_range(lists_view(lists@), nodes as int, types as int),
{
    let ghost all = lists_view(lists@);
    let mut u: usize = 0;
    while u < lists.len()
        invariant
            u <= lists.len(),
            all == lists_view(lists@),
            forall|a: int, b: int|
                0 <= a < u && 0 <= b < all[a].len() ==> (#[trigger] all[a][b]).peer < nodes
                    && all[a][b].type_id < types,
        decreases lists.len() - u,
    {
        let list = &lists[u];
        let mut i: usize = 0;
        while i < list.len()
            invariant
                i <= list.len(),
                u < lists.len(),
                all == lists_view(lists@),
                list@ == all[u as int],
                forall|b: int| 0 <= b < i ==> (#[trigger] list@[b]).peer < nodes && list@[b].type_id < types,
            decreases list.len() - i,
        {
            let in_range = (list[i].peer as usize) < nodes && (list[i].type_id as usize) < types;
            if !in_range {
                proof {
                    assert(all[u as int][i as int] == list@[i as int]);
                }
                return false;
            }
            i += 1;
        }
        u += 1;
    }
    true
}

/// For each node, the mirror images of the records that name it.
fn transpose(lists: &Vec<Vec<EdgeRecord>>) -> (r: Vec<Vec<EdgeRecord>>)
    requires
        lists@.len() <= MAX_INTERNED,
        records_in_range(lists_view(lists@), lists@.len() as int, MAX_EDGE_TYPES as int),
    ensures
        r@.len() == lists@.len(),
        forall|v: int, x: EdgeRecord|
            0 <= v < r@.len() ==> (#[trigger] r@[v]@.contains(x) <==> mirror_image(
                lists_view(lists@),
                v,
                x,
            )),
{
    let ghost all = lists_view(lists@);
    let n = lists.len();
    let mut buckets: Vec<Vec<EdgeRecord>> = Vec::new();
    let mut k: usize = 0;
    while k < n
        invariant
            k <= n,
            buckets@.len() == k,
            forall|v: int| 0 <= v < k ==> (#[trigger] buckets@[v])@.len() == 0,
        decreases n - k,
    {
        buckets.push(Vec::new());
        k += 1;
    }
    let mut u: usize = 0;
    while u < n
        invariant
            u <= n,
            n == lists@.len(),
            n <= MAX_INTERNED,
            all == lists_view(lists@),
            records_in_range(all, n as int, MAX_EDGE_TYPES as int),
            buckets@.len() == n,
            forall|v: int, x: EdgeRecord|
                0 <= v < n ==> (#[trigger] buckets@[v]@.contains(x) <==> mirror_upto(
                    all,
                    u as int,
                    0,
                    v,
                    x,
                )),
        decreases n - u,
    {
        let list = &lists[u];
        let mut i: usize = 0;
        while i < list.len()
            invariant
                i <= list.len(),
                u < n,
                n == lists@.len(),
                n <= MAX_INTERNED,
                all == lists_view(lists@),
                list@ == all[u as int],
                records_in_range(all, n as int, MAX_EDGE_TYPES as int),
                buckets@.len() == n,
                forall|v: int, x: EdgeRecord|
                    0 <= v < n ==> (#[trigger] buckets@[v]@.contains(x) <==> mirror_upto(
                        all,
                        u as int,
                        i as int,
                        v,
                        x,
                    )),
            decreases list.len() - i,
        {
            let r = list[i];
            let image = EdgeRecord {
                peer: u as u32,
                type_id: r.type_id,
                valid_from: r.valid_from,
                valid_to: r.valid_to,
                deleted: r.deleted,
            };
            let p = r.peer as usize;
            let ghost before = buckets@;
            proof {
                assert(all[u as int][i as int] == r);
                assert(image == r.mirror(u as int));
            }
            buckets[p].push(image);
            proof {
                assert forall|v: int, x: EdgeRecord| 0 <= v < n implies (
                #[trigger] buckets@[v]@.contains(x) <==> mirror_upto(all, u as int, i + 1, v, x)) by {
                    assert(before[v]@.contains(x) <==> mirror_upto(all, u as int, i as int, v, x));
                    if v == p {
                        assert(buckets@[v]@ == before[v]@.push(image));
                        if before[v]@.contains(x) {
                            let k = choose|k: int| 0 <= k < before[v]@.len() && before[v]@[k] == x;
                            assert(buckets@[v]@[k] == x);
                        }
                        if x == image {
                            assert(buckets@[v]@[before[v]@.len() as int] == x);
                        }
                    } else {
                        assert(buckets@[v] == before[v]);
                    }
                    if mirror_upto(all, u as int, i as int, v, x) {
                        let (a, b) = choose|a: int, b: int|
                            0 <= a < all.len() && 0 <= b < all[a].len() && (a < u || (a == u && b < i))
                                && (#[trigger] all[a][b]).peer == v && all[a][b].mirror(a) == x;
                        assert(a < u || (a == u && b < i + 1));
                    }
                    if mirror_upto(all, u as int, i + 1, v, x) {
                        let (a, b) = choose|a: int, b: int|
                            0 <= a < all.len() && 0 <= b < all[a].len() && (a < u || (a == u && b < i
                                + 1)) && (#[trigger] all[a][b]).peer == v && all[a][b].mirror(a) == x;
                        if a == u && b == i {
                            assert(v == p && x == image);
                        } else {
                            assert(a < u || (a == u && b < i));
                            assert(mirror_upto(all, u as int, i as int, v, x));
                        }
                    }
                    if v == p && x == image {
                        assert(all[u as int][i as int].peer == v);
                        assert(mirror_upto(all, u as int, i + 1, v, x));
                    }
                }
            }
            i += 1;
        }
        proof {
            assert forall|v: int, x: EdgeRecord| 0 <= v < n implies (#[trigger] buckets@[v]@.contains(x)
                <==> mirror_upto(all, u + 1, 0, v, x)) by {
                assert(buckets@[v]@.contains(x) <==> mirror_upto(all, u as int, list@.len() as int, v, x));
                if mirror_upto(all, u as int, list@.len() as int, v, x) {
                    let (a, b) = choose|a: int, b: int|
                        0 <= a < all.len() && 0 <= b < all[a].len() && (a < u || (a == u && b
                            < list@.len())) && (#[trigger] all[a][b]).peer == v && all[a][b].mirror(a)
                            == x;
                    assert(a < u + 1 || (a == u + 1 && b < 0));
                }
                if mirror_upto(all, u + 1, 0, v, x) {
                    let (a, b) = choose|a: int, b: int|
                        0 <= a < all.len() && 0 <= b < all[a].len() && (a < u + 1 || (a == u + 1 && b
                            < 0)) && (#[trigger] all[a][b]).peer == v && all[a][b].mirror(a) == x;
                    assert(a < u || (a == u && b < list@.len()));
                }
            }
        }
        u += 1;
    }
    buckets
}

/// Whether the two lists hold the same records in the same order.
fn same_records(a: &Vec<EdgeRecord>, b: &Vec<EdgeRecord>) -> (r: bool)
    ensures
        r == (a@ == b@),
{
    if a.len() != b.len() {
        return false;
    }
    let mut i: usize = 0;
    while i < a.len()
        invariant
            i <= a.len(),
            a@.len() == b@.len(),
            forall|k: int| 0 <= k < i ==> a@[k] == b@[k],
        decreases a.len() - i,
    {
        if !a[i].same(&b[i]) {
            return false;
        }
        i += 1;
    }
    assert(a@ =~= b@);
    true
}

/// Whether each incoming list holds exactly the mirror images of the
/// outgoing records that name its node.
fn check_sides(outgoing: &Vec<Vec<EdgeRecord>>, incoming: &Vec<Vec<EdgeRecord>>) -> (r: bool)
    requires
        outgoing@.len() == incoming@.len(),
        outgoing@.len() <= MAX_INTERNED,
        records_in_range(lists_view(outgoing@), outgoing@.len() as int, MAX_EDGE_TYPES as int),
    ensures
        r == forall|v: int, x: EdgeRecord|
            0 <= v < incoming@.len() ==> (#[trigger] lists_view(incoming@)[v].contains(x)
                <==> mirror_image(lists_view(outgoing@), v, x)),
{
    let ghost out = lists_view(outgoing@);
    let ghost inc = lists_view(incoming@);
    let images = transpose(outgoing);
    let mut v: usize = 0;
    while v < incoming.len()
        invariant
            v <= incoming.len(),
            out == lists_view(outgoing@),
            inc == lists_view(incoming@),
            images@.len() == incoming@.len(),
            forall|w: int, x: EdgeRecord|
                0 <= w < images@.len() ==> (#[trigger] images@[w]@.contains(x) <==> mirror_image(
                    out,
                    w,
                    x,
                )),
            forall|w: int, x: EdgeRecord|
                0 <= w < v ==> (#[trigger] inc[w].contains(x) <==> mirror_image(out, w, x)),
        decreases incoming.len() - v,
    {
        let want = sorted_set(&images[v]);
        let have = sorted_set(&incoming[v]);
        let same = same_records(&want, &have);
        proof {
            assert(inc[v as int] == incoming@[v as int]@);
            if same {
                assert forall|x: EdgeRecord| #[trigger]
                    inc[v as int].contains(x) <==> mirror_image(out, v as int, x) by {
                    assert(have@.contains(x) <==> incoming@[v as int]@.contains(x));
                    assert(want@.contains(x) <==> images@[v as int]@.contains(x));
                }
            } else {
                if forall|x: EdgeRecord| #[trigger]
                    inc[v as int].contains(x) <==> mirror_image(out, v as int, x) {
                    assert forall|x: EdgeRecord| want@.contains(x) <==> have@.contains(x) by {
                        assert(have@.contains(x) <==> incoming@[v as int]@.contains(x));
                        assert(want@.contains(x) <==> images@[v as int]@.contains(x));
                        assert(inc[v as int].contains(x) <==> mirror_image(out, v as int, x));
                    }
                    lemma_sorted_unique(want@, have@);
                    assert(false);
                }
            }
        }
        if !same {
            return false;
        }
        v += 1;
    }
    true
}

/// A copy of every list.
fn copy_lists(lists: &Vec<Vec<EdgeRecord>>) -> (r: Vec<Vec<EdgeRecord>>)
    ensures
        lists_view(r@) == lists_view(lists@),
{
    let mut out: Vec<Vec<EdgeRecord>> = Vec::new();
    let mut u: usize = 0;
    while u < lists.len()
        invariant
            u <= lists.len(),
            out@.len() == u,
            forall|w: int| 0 <= w < u ==> (#[trigger] out@[w])@ == lists@[w]@,
        decreases lists.len() - u,
    {
        let list = &lists[u];
        let mut copy: Vec<EdgeRecord> = Vec::new();
        let mut i: usize = 0;
        while i < list.len()
            invariant
                i <= list.len(),
                copy@ == list@.take(i as int),
            decreases list.len() - i,
        {
            copy.push(list[i]);
            proof {
                assert(list@.take(i + 1) =~= list@.take(i as int).push(list@[i as int]));
            }
            i += 1;
        }
        proof {
            assert(list@.take(list.len() as int) =~= list@);
        }
        out.push(copy);
        u += 1;
    }
    proof {
        assert(lists_view(out@) =~= lists_view(lists@));
    }
    out
}

/// A copy of the flags.
fn copy_flags(flags: &Vec<bool>) -> (r: Vec<bool>)
    ensures
        r@ == flags@,
{
    let mut out: Vec<bool> = Vec::new();
    let mut i: usize = 0;
    while i < flags.len()
        invariant
            i <= flags.len(),
            out@ == flags@.take(i as int),
        decreases flags.len() - i,
    {
        out.push(flags[i]);
        proof {
            assert(flags@.take(i + 1) =~= flags@.take(i as int).push(flags@[i as int]));
        }
        i += 1;
    }
    proof {
        assert(flags@.take(flags.len() as int) =~= flags@);
    }
    out
}

impl GraphIndex {
    /// The whole index as plain values, in the current format version.
    pub fn to_snapshot(&self) -> (s: Snapshot)
        ensures
            s.version == SNAPSHOT_VERSION,
            s@ == self@,
    {
        proof {
            self.lemma_repr();
        }
        Snapshot {
            version: SNAPSHOT_VERSION,
            nodes: self.nodes.names(),
            types: self.types.names(),
            deleted: copy_flags(&self.node_deleted),
            outgoing: copy_lists(&self.outgoing),
            incoming: copy_lists(&self.incoming),
        }
    }

    /// The index that a snapshot describes. A snapshot of another format
    /// version is refused with `SnapshotVersionMismatch`; one whose contents
    /// break the invariant of the index (a name that occurs twice, lists
    /// that are too few or too many, a record that names an unknown node or
    /// type, sides that do not mirror each other) with `DecodeError`.
    pub fn from_snapshot(s: Snapshot) -> (r: Result<GraphIndex, GraphError>)
        ensures
            load_outcome(s, r),
    {
        if s.version != SNAPSHOT_VERSION {
            return Err(GraphError::SnapshotVersionMismatch { found: s.version });
        }
        let ghost m = s@;
        let bad = GraphError::DecodeError { row: None, column: None };
        let nodes = match build_interner(&s.nodes) {
            Some(t) => t,
            None => {
                return Err(bad);
            },
        };
        let types = match build_types(&s.types) {
            Some(t) => t,
            None => {
                return Err(bad);
            },
        };
        let n = s.nodes.len();
        if s.deleted.len() != n || s.outgoing.len() != n || s.incoming.len() != n {
            return Err(bad);
        }
        proof {
            nodes.lemma_wf();
            types.lemma_wf();
            assert(m.nodes.len() == n);
            lemma_sides_agree(m);
        }
        if !check_records(&s.outgoing, n, s.types.len()) || !check_records(
            &s.incoming,
            n,
            s.types.len(),
        ) {
            return Err(bad);
        }
        proof {
            assert(records_in_range(m.outgoing, n as int, MAX_EDGE_TYPES as int));
        }
        if !check_sides(&s.outgoing, &s.incoming) {
            proof {
                assert(!sides_agree(m));
            }
            return Err(bad);
        }
        proof {
            assert(sides_agree(m));
        }
        let g = GraphIndex {
            nodes,
            types,
            node_deleted: s.deleted,
            outgoing: s.outgoing,
            incoming: s.incoming,
            sorted: false,
        };
        proof {
            g.lemma_repr();
            assert(g@ == m);
            assert(m.wf());
        }
        Ok(g)
    }
}

} // verus!
