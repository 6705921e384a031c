use quack_core::snapshot::{Snapshot, SNAPSHOT_VERSION};
use quack_core::{Direction, EdgeRecord, GraphError, GraphIndex};

fn names(list: &[&str]) -> Vec<String> {
    list.iter().map(|s| s.to_string()).collect()
}

fn sample() -> GraphIndex {
    let mut g = GraphIndex::new();
    g.add_edge("A", "B", "k", Some(1_000), Some(2_000)).unwrap();
    g.add_edge("A", "C", "k", Some(1_500), None).unwrap();
    g.add_edge("C", "A", "j", None, None).unwrap();
    g.add_edge("B", "D", "j", None, Some(900)).unwrap();
    g.add_edge("A", "C", "k", Some(1_500), None).unwrap();
    g.add_edge("E", "E", "loop", None, None).unwrap();
    g.remove_edge("C", "A", "j");
    g.remove_node("D");
    g
}

fn bad() -> Result<(), GraphError> {
    Err(GraphError::DecodeError { row: None, column: None })
}

fn load(s: Snapshot) -> Result<(), GraphError> {
    GraphIndex::from_snapshot(s).map(|_| ())
}

fn same_lists(a: &[Vec<EdgeRecord>], b: &[Vec<EdgeRecord>]) -> bool {
    a.len() == b.len()
        && a.iter().zip(b.iter()).all(|(x, y)| {
            x.len() == y.len() && x.iter().zip(y.iter()).all(|(p, q)| p.same(q))
        })
}

#[test]
fn snapshot_round_trip_keeps_every_answer() {
    let g = sample();
    let h = GraphIndex::from_snapshot(g.to_snapshot()).unwrap();
    assert_eq!(h.node_count(), g.node_count());
    assert_eq!(h.edge_count(), g.edge_count());
    for name in ["A", "B", "C", "D", "E", "F"] {
        assert_eq!(h.lookup_id(name), g.lookup_id(name));
    }
    for label in ["k", "j", "loop", "none"] {
        assert_eq!(h.get_type_id(label), g.get_type_id(label));
    }
    for id in 0..6 {
        assert_eq!(h.is_node_deleted(id), g.is_node_deleted(id));
        assert_eq!(h.lookup_str(id), g.lookup_str(id));
    }
    let sources = names(&["A", "B", "C", "D", "E"]);
    for dir in [Direction::Outgoing, Direction::Incoming] {
        for label in [None, Some("k"), Some("j"), Some("loop"), Some("none")] {
            for ts in [None, Some(0), Some(950), Some(1_200), Some(1_800), Some(3_000)] {
                for start in 0..sources.len() {
                    let from = &sources[start..];
                    assert_eq!(h.traverse(from, label, dir, ts), g.traverse(from, label, dir, ts));
                    assert_eq!(
                        h.traverse_recursive(from, label, dir, 1, 3, ts),
                        g.traverse_recursive(from, label, dir, 1, 3, ts)
                    );
                }
            }
        }
    }
}

#[test]
fn snapshot_round_trip_keeps_the_contents() {
    let g = sample();
    let s = g.to_snapshot();
    assert_eq!(s.version, SNAPSHOT_VERSION);
    assert_eq!(s.nodes, names(&["A", "B", "C", "D", "E"]));
    assert_eq!(s.types, names(&["k", "j", "loop"]));
    assert_eq!(s.deleted, vec![false, false, false, true, false]);
    let t = GraphIndex::from_snapshot(s.clone()).unwrap().to_snapshot();
    assert_eq!(t.version, s.version);
    assert_eq!(t.nodes, s.nodes);
    assert_eq!(t.types, s.types);
    assert_eq!(t.deleted, s.deleted);
    assert!(same_lists(&t.outgoing, &s.outgoing));
    assert!(same_lists(&t.incoming, &s.incoming));
    assert_eq!(s.outgoing[0].len(), 3);
    assert!(s.outgoing[2][0].deleted);
    assert!(s.incoming[0][0].deleted);
}

#[test]
fn snapshot_of_an_empty_index() {
    let s = GraphIndex::new().to_snapshot();
    assert!(s.nodes.is_empty() && s.types.is_empty() && s.deleted.is_empty());
    assert!(s.outgoing.is_empty() && s.incoming.is_empty());
    let g = GraphIndex::from_snapshot(s).unwrap();
    assert_eq!(g.node_count(), 0);
}

#[test]
fn loaded_index_can_be_changed() {
    let mut h = GraphIndex::from_snapshot(sample().to_snapshot()).unwrap();
    h.add_edge("A", "F", "k", None, None).unwrap();
    assert_eq!(h.lookup_id("F"), Some(5));
    h.compact();
    assert_eq!(h.edge_count(), 4);
    assert_eq!(
        h.traverse(&names(&["A"]), Some("k"), Direction::Outgoing, None),
        names(&["B", "C", "F"])
    );
}

#[test]
fn snapshot_of_another_version_is_refused() {
    let mut s = sample().to_snapshot();
    s.version = SNAPSHOT_VERSION + 1;
    assert_eq!(load(s), Err(GraphError::SnapshotVersionMismatch { found: 2 }));
    let mut empty = GraphIndex::new().to_snapshot();
    empty.version = 0;
    assert_eq!(load(empty), Err(GraphError::SnapshotVersionMismatch { found: 0 }));
}

#[test]
fn snapshot_with_a_repeated_name_is_refused() {
    let mut s = sample().to_snapshot();
    s.nodes[4] = "A".to_string();
    assert_eq!(load(s), bad());
    let mut t = sample().to_snapshot();
    t.types[2] = "k".to_string();
    assert_eq!(load(t), bad());
}

#[test]
fn snapshot_with_lists_of_the_wrong_number_is_refused() {
    let mut s = sample().to_snapshot();
    s.deleted.pop();
    assert_eq!(load(s), bad());
    let mut t = sample().to_snapshot();
    t.outgoing.push(Vec::new());
    assert_eq!(load(t), bad());
    let mut u = sample().to_snapshot();
    u.incoming.pop();
    assert_eq!(load(u), bad());
    let mut v = sample().to_snapshot();
    v.nodes.push("F".to_string());
    assert_eq!(load(v), bad());
}

#[test]
fn snapshot_with_a_record_out_of_range_is_refused() {
    let mut s = sample().to_snapshot();
    s.outgoing[0][0].peer = 5;
    assert_eq!(load(s), bad());
    let mut t = sample().to_snapshot();
    t.incoming[1][0].type_id = 3;
    assert_eq!(load(t), bad());
    let mut u = sample().to_snapshot();
    u.types.pop();
    assert_eq!(load(u), bad());
}

#[test]
fn snapshot_whose_sides_differ_is_refused() {
    let mut s = sample().to_snapshot();
    s.outgoing[1].pop();
    assert_eq!(load(s), bad());
    let mut t = sample().to_snapshot();
    t.incoming[1][0].valid_to = None;
    assert_eq!(load(t), bad());
    let mut u = sample().to_snapshot();
    u.incoming[0][0].deleted = false;
    assert_eq!(load(u), bad());
    let mut v = sample().to_snapshot();
    v.incoming[3].push(EdgeRecord::new(0, 0, None, None));
    assert_eq!(load(v), bad());
    let mut w = sample().to_snapshot();
    w.outgoing[0][1].peer = 1;
    assert_eq!(load(w), bad());
}

#[test]
fn snapshot_with_too_many_edge_types_is_refused() {
    let mut s = GraphIndex::new().to_snapshot();
    s.types = (0..257).map(|i| format!("t{}", i)).collect();
    assert_eq!(load(s), bad());
    let mut t = GraphIndex::new().to_snapshot();
    t.types = (0..256).map(|i| format!("t{}", i)).collect();
    assert_eq!(load(t), Ok(()));
}

#[test]
fn snapshot_may_hold_a_record_more_often_on_one_side() {
    let mut s = sample().to_snapshot();
    assert_eq!(s.outgoing[0].len(), 3);
    assert!(s.outgoing[0][1].same(&s.outgoing[0][2]));
    s.outgoing[0].pop();
    let mut g = GraphIndex::from_snapshot(s).unwrap();
    assert_eq!(g.edge_count(), 5);
    assert_eq!(
        g.traverse(&names(&["C"]), Some("k"), Direction::Incoming, None),
        names(&["A"])
    );
    g.compact();
    assert_eq!(g.edge_count(), 3);
}

#[test]
fn snapshot_order_of_lists_is_free() {
    let mut s = sample().to_snapshot();
    s.outgoing[0].reverse();
    let g = GraphIndex::from_snapshot(s).unwrap();
    assert_eq!(
        g.traverse(&names(&["A"]), Some("k"), Direction::Outgoing, None),
        names(&["C", "B"])
    );
}
