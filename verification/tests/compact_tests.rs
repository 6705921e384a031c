use quack_core::compact::{key_less, sorted_set};
use quack_core::ingest::{Column, ColumnarBatch};
use quack_core::{Direction, EdgeRecord, GraphIndex};

fn names(list: &[&str]) -> Vec<String> {
    list.iter().map(|s| s.to_string()).collect()
}

fn texts(list: &[&str]) -> Column {
    Column::Utf8(list.iter().map(|s| Some(s.to_string())).collect())
}

fn rec(peer: u32, type_id: u8, valid_from: Option<i64>, valid_to: Option<i64>) -> EdgeRecord {
    EdgeRecord::new(peer, type_id, valid_from, valid_to)
}

fn mirrored(g: &GraphIndex) -> bool {
    let s = g.to_snapshot();
    let n = s.nodes.len();
    for u in 0..n {
        for r in &s.outgoing[u] {
            let back = EdgeRecord { peer: u as u32, ..*r };
            if !s.incoming[r.peer as usize].iter().any(|x| x.same(&back)) {
                return false;
            }
        }
        for r in &s.incoming[u] {
            let forth = EdgeRecord { peer: u as u32, ..*r };
            if !s.outgoing[r.peer as usize].iter().any(|x| x.same(&forth)) {
                return false;
            }
        }
    }
    true
}

#[test]
fn compaction_dedup() {
    let mut g = GraphIndex::new();
    let batch = ColumnarBatch {
        columns: vec![
            texts(&["A", "A"]),
            texts(&["B", "B"]),
            texts(&["k", "k"]),
            Column::TimestampMicros(vec![Some(10), Some(10)]),
            Column::TimestampMicros(vec![None, None]),
        ],
    };
    assert_eq!(g.add_arrow_batch(&batch), Ok(()));
    assert_eq!(g.edge_count(), 2);
    let before = g.traverse(&names(&["A"]), Some("k"), Direction::Outgoing, Some(10));
    g.compact();
    assert_eq!(g.edge_count(), 1);
    let after = g.traverse(&names(&["A"]), Some("k"), Direction::Outgoing, Some(10));
    assert_eq!(before, names(&["B"]));
    assert_eq!(after, before);
}

#[test]
fn compaction_sorts_by_type_peer_and_interval() {
    let mut g = GraphIndex::new();
    for name in ["A", "B", "C", "D"] {
        g.get_or_create_node(name).unwrap();
    }
    g.add_edge("Z", "Z", "t0", None, None).unwrap();
    g.add_edge("A", "D", "t1", Some(5), Some(9)).unwrap();
    g.add_edge("A", "C", "t1", Some(7), None).unwrap();
    g.add_edge("A", "C", "t1", Some(7), Some(8)).unwrap();
    g.add_edge("A", "C", "t1", None, Some(3)).unwrap();
    g.add_edge("A", "B", "t1", Some(-4), Some(-2)).unwrap();
    g.add_edge("A", "D", "t0", Some(1), None).unwrap();
    g.add_edge("A", "C", "t1", Some(7), None).unwrap();
    g.add_edge("A", "C", "t1", Some(6), None).unwrap();
    g.compact();
    let s = g.to_snapshot();
    let expected = vec![
        rec(3, 0, Some(1), None),
        rec(1, 1, Some(-4), Some(-2)),
        rec(2, 1, None, Some(3)),
        rec(2, 1, Some(6), None),
        rec(2, 1, Some(7), Some(8)),
        rec(2, 1, Some(7), None),
        rec(3, 1, Some(5), Some(9)),
    ];
    assert_eq!(s.outgoing[0].len(), expected.len());
    for (found, wanted) in s.outgoing[0].iter().zip(expected.iter()) {
        assert!(found.same(wanted));
    }
    let into_c = vec![
        rec(0, 1, None, Some(3)),
        rec(0, 1, Some(6), None),
        rec(0, 1, Some(7), Some(8)),
        rec(0, 1, Some(7), None),
    ];
    assert_eq!(s.incoming[2].len(), into_c.len());
    for (found, wanted) in s.incoming[2].iter().zip(into_c.iter()) {
        assert!(found.same(wanted));
    }
    assert_eq!(g.edge_count(), 8);
}

#[test]
fn compaction_leaves_no_record_twice() {
    let mut g = GraphIndex::new();
    for _ in 0..3 {
        g.add_edge("A", "B", "k", Some(1), Some(2)).unwrap();
        g.add_edge("A", "B", "k", Some(1), None).unwrap();
        g.add_edge("B", "A", "k", None, None).unwrap();
        g.add_edge("A", "A", "j", None, None).unwrap();
    }
    assert_eq!(g.edge_count(), 12);
    g.compact();
    assert_eq!(g.edge_count(), 4);
    let s = g.to_snapshot();
    for lists in [&s.outgoing, &s.incoming] {
        for list in lists.iter() {
            for i in 0..list.len() {
                for j in 0..i {
                    assert!(!list[i].same(&list[j]));
                }
            }
        }
    }
}

#[test]
fn sides_mirror_each_other_after_compaction() {
    let mut g = GraphIndex::new();
    let edges = [
        ("A", "B", "k"),
        ("B", "C", "k"),
        ("C", "A", "j"),
        ("A", "B", "k"),
        ("D", "A", "j"),
        ("A", "D", "k"),
        ("B", "B", "k"),
        ("C", "D", "j"),
    ];
    for (i, (s, t, l)) in edges.iter().enumerate() {
        g.add_edge(s, t, l, Some(i as i64), None).unwrap();
        assert!(mirrored(&g));
    }
    g.remove_edge("A", "B", "k");
    assert!(mirrored(&g));
    g.remove_node("D");
    assert!(mirrored(&g));
    g.compact();
    assert!(mirrored(&g));
    let s = g.to_snapshot();
    let out: usize = s.outgoing.iter().map(|l| l.len()).sum();
    let inc: usize = s.incoming.iter().map(|l| l.len()).sum();
    assert_eq!(out, inc);
    assert_eq!(g.edge_count(), out);
    assert_eq!(out, 3);
}

#[test]
fn compaction_drops_tombstoned_records() {
    let mut g = GraphIndex::new();
    g.add_edge("A", "B", "k", None, None).unwrap();
    g.add_edge("A", "C", "k", None, None).unwrap();
    g.add_edge("B", "C", "k", None, None).unwrap();
    g.remove_edge("A", "B", "k");
    assert_eq!(g.edge_count(), 3);
    g.compact();
    assert_eq!(g.edge_count(), 2);
    assert_eq!(g.traverse(&names(&["A"]), None, Direction::Outgoing, None), names(&["C"]));
    assert_eq!(g.node_count(), 3);
}

#[test]
fn compaction_drops_edges_at_tombstoned_nodes() {
    let mut g = GraphIndex::new();
    g.add_edge("A", "B", "k", None, None).unwrap();
    g.add_edge("B", "C", "k", None, None).unwrap();
    g.add_edge("C", "A", "k", None, None).unwrap();
    g.remove_node("B");
    g.compact();
    assert_eq!(g.edge_count(), 1);
    assert_eq!(g.node_count(), 3);
    assert!(g.is_node_deleted(1));
    let s = g.to_snapshot();
    assert!(s.outgoing[1].is_empty());
    assert!(s.incoming[1].is_empty());
    g.get_or_create_node("B").unwrap();
    assert_eq!(g.traverse(&names(&["B"]), None, Direction::Outgoing, None), names(&[]));
    assert_eq!(g.traverse(&names(&["C"]), None, Direction::Outgoing, None), names(&["A"]));
}

#[test]
fn compaction_keeps_answers() {
    let mut g = GraphIndex::new();
    g.add_edge("A", "C", "k", Some(3), None).unwrap();
    g.add_edge("A", "B", "k", Some(1), Some(5)).unwrap();
    g.add_edge("A", "C", "k", Some(3), None).unwrap();
    g.add_edge("B", "C", "j", None, None).unwrap();
    let ask = |g: &GraphIndex, ts: Option<i64>| {
        let mut found = g.traverse(&names(&["A", "B"]), None, Direction::Outgoing, ts);
        found.sort();
        found
    };
    let before: Vec<Vec<String>> = [None, Some(0), Some(2), Some(4), Some(6)]
        .iter()
        .map(|ts| ask(&g, *ts))
        .collect();
    g.compact();
    let after: Vec<Vec<String>> = [None, Some(0), Some(2), Some(4), Some(6)]
        .iter()
        .map(|ts| ask(&g, *ts))
        .collect();
    assert_eq!(before, after);
    assert_eq!(after[3], names(&["B", "C"]));
    g.compact();
    assert_eq!(g.edge_count(), 3);
}

#[test]
fn neighbors_by_type_in_a_compacted_index() {
    let mut g = GraphIndex::new();
    g.get_or_create_node("A").unwrap();
    for i in 0..256usize {
        let peer = format!("n{}", i % 7);
        g.add_edge("A", &peer, &format!("t{}", 255 - i), None, None).unwrap();
        g.add_edge("A", &peer, &format!("t{}", 255 - i), None, None).unwrap();
        g.add_edge("A", "n0", &format!("t{}", 255 - i), Some(1), Some(2)).unwrap();
    }
    let ask = |g: &GraphIndex| -> Vec<Vec<u32>> {
        let mut all = Vec::new();
        for t in 0..=255u8 {
            let mut out = g.get_neighbors(0, t, Direction::Outgoing, None);
            out.sort();
            all.push(out);
            all.push(g.get_neighbors(1, t, Direction::Incoming, Some(1)));
            all.push(g.get_neighbors(3, t, Direction::Incoming, None));
        }
        all
    };
    let before = ask(&g);
    assert_eq!(g.edge_count(), 768);
    g.compact();
    assert_eq!(g.edge_count(), 512);
    let after = ask(&g);
    assert_eq!(before, after);
    assert_eq!(g.get_type_id("t255"), Some(0));
    assert_eq!(g.get_type_id("t0"), Some(255));
    assert_eq!(g.get_neighbors(0, 0, Direction::Outgoing, None), vec![1]);
    assert_eq!(g.get_neighbors(0, 1, Direction::Outgoing, None), vec![1, 2]);
    assert_eq!(g.get_neighbors(0, 254, Direction::Outgoing, None), vec![1, 3]);
    assert_eq!(g.get_neighbors(0, 255, Direction::Outgoing, None), vec![1, 4]);
    assert_eq!(g.get_neighbors(0, 255, Direction::Outgoing, Some(5)), vec![4]);
    assert_eq!(g.get_neighbors(4, 255, Direction::Incoming, None), vec![0]);
    assert_eq!(g.get_neighbors(4, 254, Direction::Incoming, None), Vec::<u32>::new());
    assert_eq!(g.get_neighbors(1, 255, Direction::Outgoing, None), Vec::<u32>::new());
    assert_eq!(g.neighbors_of(0, None, Direction::Outgoing, None), vec![1, 2, 3, 4, 5, 6, 7]);
    g.remove_edge("A", "n0", "t255");
    assert_eq!(g.get_neighbors(0, 0, Direction::Outgoing, None), Vec::<u32>::new());
    assert_eq!(g.get_neighbors(0, 1, Direction::Outgoing, None), vec![1, 2]);
    g.compact();
    assert_eq!(g.get_neighbors(0, 0, Direction::Outgoing, None), Vec::<u32>::new());
    assert_eq!(g.get_neighbors(0, 1, Direction::Outgoing, None), vec![1, 2]);
    assert_eq!(g.edge_count(), 510);
    let h = GraphIndex::from_snapshot(g.to_snapshot()).unwrap();
    assert_eq!(h.get_neighbors(0, 255, Direction::Outgoing, None), vec![1, 4]);
}

#[test]
fn compaction_of_an_empty_index() {
    let mut g = GraphIndex::new();
    g.compact();
    assert_eq!(g.node_count(), 0);
    assert_eq!(g.edge_count(), 0);
}

#[test]
fn record_order() {
    let a = rec(1, 0, None, None);
    assert!(!key_less(&a, &a));
    assert!(key_less(&rec(9, 0, None, None), &rec(0, 1, None, None)));
    assert!(key_less(&rec(1, 1, Some(9), None), &rec(2, 1, None, None)));
    assert!(key_less(&rec(1, 1, None, None), &rec(1, 1, Some(i64::MIN), None)));
    assert!(key_less(&rec(1, 1, Some(3), None), &rec(1, 1, Some(4), Some(0))));
    assert!(key_less(&rec(1, 1, Some(3), Some(i64::MAX)), &rec(1, 1, Some(3), None)));
    assert!(key_less(&rec(1, 1, Some(3), Some(4)), &rec(1, 1, Some(3), Some(5))));
    assert!(!key_less(&rec(1, 1, Some(3), None), &rec(1, 1, Some(3), Some(5))));
    let dead = EdgeRecord { deleted: true, ..a };
    assert!(key_less(&a, &dead));
    assert!(!key_less(&dead, &a));
}

#[test]
fn sorted_set_of_records() {
    let list = vec![
        rec(2, 0, None, None),
        rec(1, 0, None, None),
        rec(2, 0, None, None),
        EdgeRecord { deleted: true, ..rec(1, 0, None, None) },
        rec(1, 0, None, None),
    ];
    let sorted = sorted_set(&list);
    assert_eq!(sorted.len(), 3);
    assert!(sorted[0].same(&rec(1, 0, None, None)));
    assert!(sorted[1].same(&list[3]));
    assert!(sorted[2].same(&rec(2, 0, None, None)));
    assert!(sorted_set(&Vec::new()).is_empty());
}
