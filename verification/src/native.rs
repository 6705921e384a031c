//! The host-facing surface of the index: every operation over plain values,
//! with names resolved and results given as names.

use crate::edge::Direction;
use crate::error::GraphError;
use crate::ingest::{batch_error, batch_rows, ColumnarBatch};
use crate::interner::texts;
use crate::matcher::{all_matches, is_match, pattern_ok, rows, Matcher, PatternEdge};
use crate::model::GraphModel;
use crate::snapshot::{load_outcome, Snapshot, SNAPSHOT_VERSION};
use crate::topology::GraphIndex;
use crate::traverse::label_text;
use vstd::prelude::*;

verus! {

/// One pattern edge as the host gives it: the two variables, the label of
/// the edge type, and the direction as text.
#[derive(Debug, Clone)]
pub struct JsPatternEdge {
    pub src_var: u32,
    pub tgt_var: u32,
    pub edge_type: String,
    pub direction: Option<String>,
}

/// The direction that a host's text asks for: `"in"` and `"IN"` ask for
/// incoming edges, anything else, and no text, for outgoing ones.
pub open spec fn direction_of(text: Option<Seq<char>>) -> Direction {
    if text == Some("in"@) || text == Some("IN"@) {
        Direction::Incoming
    } else {
        Direction::Outgoing
    }
}

/// An optional string as a character sequence.
pub open spec fn opt_text(text: Option<String>) -> Option<Seq<char>> {
    match text {
        Some(t) => Some(t@),
        None => None,
    }
}

/// A depth bound as the host gives it: 1 where none is given.
pub open spec fn depth_of(depth: Option<u32>) -> nat {
    match depth {
        Some(d) => d as nat,
        None => 1,
    }
}

/// The rows of a result as sequences of names.
pub open spec fn rows_text(results: Seq<Vec<String>>) -> Seq<Seq<Seq<char>>> {
    results.map_values(|row: Vec<String>| texts(row@))
}

impl GraphModel {
    /// The pattern edge that the host's edge stands for, where its label is
    /// a known edge type.
    pub open spec fn pattern_edge_of(self, e: JsPatternEdge) -> PatternEdge {
        PatternEdge {
            src_var: e.src_var as usize,
            tgt_var: e.tgt_var as usize,
            type_id: self.types.index_of(e.edge_type@) as u8,
            direction: direction_of(opt_text(e.direction)),
        }
    }

    /// Whether every edge of the host's pattern names a known edge type.
    pub open spec fn types_known(self, pattern: Seq<JsPatternEdge>) -> bool {
        forall|k: int| 0 <= k < pattern.len() ==> self.types.contains((#[trigger] pattern[k]).edge_type@)
    }

    /// The pattern that the host's pattern stands for.
    pub open spec fn core_pattern(self, pattern: Seq<JsPatternEdge>) -> Seq<PatternEdge> {
        Seq::new(pattern.len(), |k: int| self.pattern_edge_of(pattern[k]))
    }

    /// What `match_pattern` returns: for each match of the pattern, in the
    /// order in which the search finds them, the names of its nodes; nothing
    /// where an edge of the pattern names an unknown edge type.
    pub open spec fn named_matches(
        self,
        starts: Seq<Seq<char>>,
        pattern: Seq<JsPatternEdge>,
        as_of: Option<i64>,
    ) -> Seq<Seq<Seq<char>>> {
        if self.types_known(pattern) {
            all_matches(self, self.core_pattern(pattern), self.resolved(starts), as_of).map_values(
                |phi: Seq<u32>| self.names_of(phi),
            )
        } else {
            Seq::empty()
        }
    }

    /// Whether `names` is a row of `match_pattern`: the names of the nodes
    /// of some match of the pattern that starts at one of `starts`.
    pub open spec fn is_named_match(
        self,
        starts: Seq<Seq<char>>,
        pattern: Seq<JsPatternEdge>,
        as_of: Option<i64>,
        names: Seq<Seq<char>>,
    ) -> bool {
        &&& self.types_known(pattern)
        &&& pattern_ok(self.core_pattern(pattern))
        &&& exists|phi: Seq<u32>| #[trigger]
            is_match(self, self.core_pattern(pattern), self.resolved(starts), as_of, phi)
                && self.names_of(phi) == names
    }
}

/// Whether two strings are the same.
fn same_text(a: &str, b: &str) -> (r: bool)
    ensures
        r == (a@ == b@),
{
    a.to_owned() == b.to_owned()
}

/// The direction that a host's text asks for.
pub fn parse_direction(text: Option<&str>) -> (r: Direction)
    ensures
        r == direction_of(label_text(text)),
{
    match text {
        Some(t) => {
            if same_text(t, "in") || same_text(t, "IN") {
                Direction::Incoming
            } else {
                Direction::Outgoing
            }
        },
        None => Direction::Outgoing,
    }
}

/// The graph as a host process holds it.
pub struct NativeGraph {
    inner: GraphIndex,
}

impl View for NativeGraph {
    type V = GraphModel;

    closed spec fn view(&self) -> GraphModel {
        self.inner@
    }
}

impl NativeGraph {
    /// The invariant of the index that is held.
    pub closed spec fn wf(&self) -> bool {
        self.inner.wf()
    }

    /// A well-formed graph has a well-formed model.
    pub proof fn lemma_wf(&self)
        requires
            self.wf(),
        ensures
            self@.wf(),
    {
        self.inner.lemma_wf();
    }

    /// An empty graph.
    pub fn new() -> (r: Self)
        ensures
            r.wf(),
            r@.nodes.len() == 0,
            r@.types.len() == 0,
            r@.outgoing.len() == 0,
            r@.incoming.len() == 0,
    {
        NativeGraph { inner: GraphIndex::new() }
    }

    /// Creates the node `id`, or clears its tombstone.
    pub fn add_node(&mut self, id: &str) -> (r: Result<(), GraphError>)
        requires
            old(self).wf(),
        ensures
            final(self).wf(),
            match r {
                Ok(()) => {
                    &&& old(self)@.nodes.contains(id@) || old(self)@.nodes.len()
                        < crate::interner::MAX_INTERNED
                    &&& final(self)@ == old(self)@.with_node(id@)
                },
                Err(e) => {
                    &&& e == GraphError::TooManyNodes
                    &&& !old(self)@.nodes.contains(id@)
                    &&& old(self)@.nodes.len() >= crate::interner::MAX_INTERNED
                    &&& final(self)@ == old(self)@
                },
            },
    {
        match self.inner.get_or_create_node(id) {
            Ok(_) => Ok(()),
            Err(e) => Err(e),
        }
    }

    /// Hydrates the graph from an Arrow IPC stream that the host has
    /// decoded. Each item is a record batch of the stream, or the text that
    /// says why the stream could not be read further. The batches are
    /// ingested in order up to the first failure: an item that is no batch
    /// (an `IoError` with its text), a batch that breaks the schema, or a row
    /// whose nodes or edge type do not fit. Nothing is deduplicated: the
    /// caller compacts afterwards.
    pub fn load_arrow_ipc(&mut self, items: &[Result<ColumnarBatch, String>]) -> (r: Result<
        (),
        GraphError,
    >)
        requires
            old(self).wf(),
        ensures
            final(self).wf(),
            final(self)@ == old(self)@.ingest_stream(items@).0,
            match old(self)@.ingest_stream(items@).1 {
                Some(e) => r == Err::<(), GraphError>(e),
                None => r is Ok,
            },
    {
        let ghost start = self@;
        let ghost all = items@;
        proof {
            assert(all.skip(0) =~= all);
        }
        let mut i: usize = 0;
        while i < items.len()
            invariant
                i <= items.len(),
                self.wf(),
                all == items@,
                start == old(self)@,
                start.ingest_stream(all) == self@.ingest_stream(all.skip(i as int)),
            decreases items.len() - i,
        {
            let ghost rest = all.skip(i as int);
            let ghost here = self@;
            proof {
                assert(rest.first() == items@[i as int]);
                assert(rest.drop_first() =~= all.skip(i + 1));
            }
            match &items[i] {
                Err(text) => {
                    let e = GraphError::IoError(text.clone());
                    proof {
                        assert(here.ingest_stream(rest) == (here, Some(e)));
                    }
                    return Err(e);
                },
                Ok(batch) => {
                    match self.inner.add_arrow_batch(batch) {
                        Ok(()) => {},
                        Err(e) => {
                            proof {
                                assert(here.ingest_stream(rest) == (self@, Some(e)));
                            }
                            return Err(e);
                        },
                    }
                },
            }
            proof {
                assert(here.ingest_stream(rest) == self@.ingest_stream(rest.drop_first()));
            }
            i += 1;
        }
        proof {
            assert(all.skip(items.len() as int).len() == 0);
        }
        Ok(())
    }

    /// Compacts the index; see `GraphIndex::compact`.
    pub fn compact(&mut self)
        requires
            old(self).wf(),
        ensures
            final(self).wf(),
            final(self)@.compacted_from(old(self)@),
    {
        self.inner.compact();
    }

    /// Adds an edge. The bounds of its validity interval are given in
    /// microseconds.
    pub fn add_edge(
        &mut self,
        source: &str,
        target: &str,
        edge_type: &str,
        valid_from: Option<i64>,
        valid_to: Option<i64>,
    ) -> (r: Result<(), GraphError>)
        requires
            old(self).wf(),
        ensures
            final(self).wf(),
            match r {
                Ok(()) => {
                    &&& old(self)@.add_edge_error(source@, target@, edge_type@) is None
                    &&& final(self)@ == old(self)@.with_edge(
                        source@,
                        target@,
                        edge_type@,
                        valid_from,
                        valid_to,
                    )
                },
                Err(e) => {
                    &&& old(self)@.add_edge_error(source@, target@, edge_type@) == Some(e)
                    &&& final(self)@ == old(self)@
                },
            },
    {
        self.inner.add_edge(source, target, edge_type, valid_from, valid_to)
    }

    /// Tombstones a node; see `GraphIndex::remove_node`.
    pub fn remove_node(&mut self, id: &str)
        requires
            old(self).wf(),
        ensures
            final(self).wf(),
            final(self)@ == old(self)@.without_node(id@),
    {
        self.inner.remove_node(id);
    }

    /// Tombstones an edge; see `GraphIndex::remove_edge`.
    pub fn remove_edge(&mut self, source: &str, target: &str, edge_type: &str)
        requires
            old(self).wf(),
        ensures
            final(self).wf(),
            final(self)@ == old(self)@.without_edge(source@, target@, edge_type@),
    {
        self.inner.remove_edge(source, target, edge_type);
    }

    /// A single-hop traversal. The timestamp is in microseconds.
    pub fn traverse(
        &self,
        sources: &[String],
        edge_type: Option<&str>,
        direction: Option<&str>,
        as_of: Option<i64>,
    ) -> (r: Vec<String>)
        requires
            self.wf(),
        ensures
            texts(r@) == self@.traverse(
                texts(sources@),
                label_text(edge_type),
                direction_of(label_text(direction)),
                as_of,
            ),
    {
        let dir = parse_direction(direction);
        self.inner.traverse(sources, edge_type, dir, as_of)
    }

    /// A breadth-first traversal between two depths, each of which is 1
    /// where it is not given. The timestamp is in microseconds.
    pub fn traverse_recursive(
        &self,
        sources: &[String],
        edge_type: Option<&str>,
        direction: Option<&str>,
        min_depth: Option<u32>,
        max_depth: Option<u32>,
        as_of: Option<i64>,
    ) -> (r: Vec<String>)
        requires
            self.wf(),
        ensures
            texts(r@) == self@.traverse_recursive(
                texts(sources@),
                label_text(edge_type),
                direction_of(label_text(direction)),
                as_of,
                depth_of(min_depth),
                depth_of(max_depth),
            ),
            texts(r@).no_duplicates(),
            forall|name: Seq<char>|
                texts(r@).contains(name) <==> self@.in_range_name(
                    texts(sources@),
                    label_text(edge_type),
                    direction_of(label_text(direction)),
                    as_of,
                    depth_of(min_depth),
                    depth_of(max_depth),
                    name,
                ),
    {
        let dir = parse_direction(direction);
        let min = match min_depth {
            Some(d) => d as usize,
            None => 1,
        };
        let max = match max_depth {
            Some(d) => d as usize,
            None => 1,
        };
        self.inner.traverse_recursive(sources, edge_type, dir, min, max, as_of)
    }

    /// All matches of the pattern whose variable 0 is bound to one of the
    /// named start nodes, each once, as rows of node names. A pattern that
    /// names an unknown edge type, and one that is not matched (see
    /// `pattern_ok`), has no matches. The timestamp is in microseconds.
    pub fn match_pattern(
        &self,
        start_ids: &[String],
        pattern: &[JsPatternEdge],
        as_of: Option<i64>,
    ) -> (r: Vec<Vec<String>>)
        requires
            self.wf(),
        ensures
            rows_text(r@) == self@.named_matches(texts(start_ids@), pattern@, as_of),
            rows_text(r@).no_duplicates(),
            forall|names: Seq<Seq<char>>|
                rows_text(r@).contains(names) <==> self@.is_named_match(
                    texts(start_ids@),
                    pattern@,
                    as_of,
                    names,
                ),
    {
        let ghost m = self@;
        proof {
            self.inner.lemma_wf();
        }
        let mut core: Vec<PatternEdge> = Vec::new();
        let mut k: usize = 0;
        while k < pattern.len()
            invariant
                k <= pattern.len(),
                self.wf(),
                m == self@,
                m.wf(),
                core@.len() == k,
                forall|j: int| 0 <= j < k ==> m.types.contains((#[trigger] pattern@[j]).edge_type@),
                forall|j: int| 0 <= j < k ==> core@[j] == m.pattern_edge_of(#[trigger] pattern@[j]),
            decreases pattern.len() - k,
        {
            let p = &pattern[k];
            match self.inner.get_type_id(p.edge_type.as_str()) {
                Some(type_id) => {
                    let text = match &p.direction {
                        Some(d) => Some(d.as_str()),
                        None => None,
                    };
                    proof {
                        assert(m.types.contains(p.edge_type@));
                        assert(m.types[m.types.index_of(p.edge_type@)] == p.edge_type@);
                        assert(label_text(text) == opt_text(p.direction));
                    }
                    core.push(
                        PatternEdge {
                            src_var: p.src_var as usize,
                            tgt_var: p.tgt_var as usize,
                            type_id,
                            direction: parse_direction(text),
                        },
                    );
                },
                None => {
                    let r: Vec<Vec<String>> = Vec::new();
                    proof {
                        assert(!m.types_known(pattern@));
                        assert(rows_text(r@) =~= Seq::<Seq<Seq<char>>>::empty());
                    }
                    return r;
                },
            }
            k += 1;
        }
        proof {
            assert(core@ =~= m.core_pattern(pattern@));
            assert(m.types_known(pattern@));
        }
        let start_candidates = self.inner.resolve_ids(start_ids);
        let matcher = Matcher::new(&self.inner, core.as_slice());
        let raw = matcher.find_matches(start_candidates.as_slice(), as_of);
        let ghost p = core@;
        let ghost starts = start_candidates@;
        let ghost found = rows(raw@);
        proof {
            assert forall|j: int| 0 <= j < found.len() implies pattern_ok(p) && is_match(
                m,
                p,
                starts,
                as_of,
                #[trigger] found[j],
            ) by {
                assert(found.contains(found[j]));
            }
        }
        let mut out: Vec<Vec<String>> = Vec::new();
        let mut i: usize = 0;
        while i < raw.len()
            invariant
                i <= raw.len(),
                self.wf(),
                m == self@,
                m.wf(),
                found == rows(raw@),
                forall|j: int|
                    0 <= j < found.len() ==> pattern_ok(p) && is_match(
                        m,
                        p,
                        starts,
                        as_of,
                        #[trigger] found[j],
                    ),
                out@.len() == i,
                forall|j: int| 0 <= j < i ==> texts((#[trigger] out@[j])@) == m.names_of(found[j]),
            decreases raw.len() - i,
        {
            proof {
                assert(found[i as int] == raw@[i as int]@);
                assert(is_match(m, p, starts, as_of, found[i as int]));
                assert forall|j: int| 0 <= j < raw@[i as int]@.len() implies raw@[i as int]@[j]
                    < m.nodes.len() by {
                    assert(m.live(found[i as int][j] as int));
                }
            }
            out.push(self.inner.names_of(raw[i].as_slice()));
            i += 1;
        }
        proof {
            let named = rows_text(out@);
            assert forall|j: int| 0 <= j < named.len() implies named[j] == m.names_of(found[j]) by {
                assert(texts(out@[j]@) == m.names_of(found[j]));
            }
            assert(found == all_matches(m, p, starts, as_of));
            assert(named =~= m.named_matches(texts(start_ids@), pattern@, as_of));
            assert forall|a: int, b: int|
                0 <= a < named.len() && 0 <= b < named.len() && a != b implies named[a] != named[b] by {
                assert(found[a] != found[b]);
                assert(is_match(m, p, starts, as_of, found[a]));
                assert(is_match(m, p, starts, as_of, found[b]));
                if named[a] == named[b] {
                    assert forall|c: int| 0 <= c < found[a].len() implies found[a][c] < m.nodes.len() by {
                        assert(m.live(found[a][c] as int));
                    }
                    assert forall|c: int| 0 <= c < found[b].len() implies found[b][c] < m.nodes.len() by {
                        assert(m.live(found[b][c] as int));
                    }
                    m.lemma_names_of_injective(found[a], found[b]);
                }
            }
            assert forall|names: Seq<Seq<char>>|
                named.contains(names) <==> m.is_named_match(texts(start_ids@), pattern@, as_of, names) by {
                if named.contains(names) {
                    let j = choose|j: int| 0 <= j < named.len() && named[j] == names;
                    assert(is_match(m, p, starts, as_of, found[j]));
                }
                if m.is_named_match(texts(start_ids@), pattern@, as_of, names) {
                    let phi = choose|phi: Seq<u32>| #[trigger]
                        is_match(m, p, starts, as_of, phi) && m.names_of(phi) == names;
                    assert(found.contains(phi));
                    let j = choose|j: int| 0 <= j < found.len() && found[j] == phi;
                    assert(named[j] == names);
                }
            }
        }
        out
    }

    /// Number of nodes ever created, reduced modulo 2^32.
    pub fn node_count(&self) -> (r: u32)
        ensures
            r == self@.nodes.len() % 0x1_0000_0000,
    {
        let n = self.inner.node_count() as u64;
        (n % 0x1_0000_0000u64) as u32
    }

    /// Number of logical edges, or `usize::MAX` where they are more,
    /// reduced modulo 2^32; see `GraphIndex::edge_count`.
    pub fn edge_count(&self) -> (r: u32)
        ensures
            r == (if self@.edge_count() <= usize::MAX {
                self@.edge_count()
            } else {
                usize::MAX as nat
            }) % 0x1_0000_0000,
    {
        let n = self.inner.edge_count() as u64;
        (n % 0x1_0000_0000u64) as u32
    }

    /// The whole graph as plain values, for the host to write out.
    pub fn save_snapshot(&self) -> (s: Snapshot)
        ensures
            s.version == SNAPSHOT_VERSION,
            s@ == self@,
    {
        self.inner.to_snapshot()
    }

    /// What the host's attempt to read a snapshot comes to: a snapshot that
    /// was read is loaded as `load_snapshot` does, and a failure to read,
    /// which the host describes in `text`, is an `IoError` that leaves the
    /// graph as it was.
    pub fn load_snapshot_from(&mut self, read: Result<Snapshot, String>) -> (r: Result<(), GraphError>)
        requires
            old(self).wf(),
        ensures
            final(self).wf(),
            match read {
                Ok(snapshot) => match r {
                    Ok(()) => snapshot.version == SNAPSHOT_VERSION && snapshot@.wf() && final(self)@
                        == snapshot@,
                    Err(e) => final(self)@ == old(self)@ && load_outcome(
                        snapshot,
                        Err::<GraphIndex, GraphError>(e),
                    ),
                },
                Err(text) => r == Err::<(), GraphError>(GraphError::IoError(text)) && final(self)@
                    == old(self)@,
            },
    {
        match read {
            Ok(snapshot) => self.load_snapshot(snapshot),
            Err(text) => Err(GraphError::IoError(text)),
        }
    }

    /// What the host's attempt to write a snapshot comes to: a failure,
    /// which the host describes in `text`, is an `IoError`.
    pub fn save_outcome(written: Result<(), String>) -> (r: Result<(), GraphError>)
        ensures
            match written {
                Ok(()) => r is Ok,
                Err(text) => r == Err::<(), GraphError>(GraphError::IoError(text)),
            },
    {
        match written {
            Ok(()) => Ok(()),
            Err(text) => Err(GraphError::IoError(text)),
        }
    }

    /// Replaces the graph by the one that a snapshot describes. Where the
    /// snapshot is refused, the graph stays as it was.
    pub fn load_snapshot(&mut self, snapshot: Snapshot) -> (r: Result<(), GraphError>)
        requires
            old(self).wf(),
        ensures
            final(self).wf(),
            match r {
                Ok(()) => snapshot.version == SNAPSHOT_VERSION && snapshot@.wf() && final(self)@
                    == snapshot@,
                Err(e) => final(self)@ == old(self)@ && load_outcome(
                    snapshot,
                    Err::<GraphIndex, GraphError>(e),
                ),
            },
    {
        match GraphIndex::from_snapshot(snapshot) {
            Ok(loaded) => {
                self.inner = loaded;
                Ok(())
            },
            Err(e) => Err(e),
        }
    }
}

impl Default for NativeGraph {
    /// An empty graph.
    fn default() -> (r: Self)
        ensures
            r.wf(),
            r@.nodes.len() == 0,
    {
        NativeGraph::new()
    }
}

} // verus!
