use quack_core::ingest::{Column, ColumnarBatch};
use quack_core::native::{parse_direction, JsPatternEdge, NativeGraph};
use quack_core::{Direction, GraphError};

fn names(list: &[&str]) -> Vec<String> {
    list.iter().map(|s| s.to_string()).collect()
}

fn texts(list: &[&str]) -> Column {
    Column::Utf8(list.iter().map(|s| Some(s.to_string())).collect())
}

fn batch(rows: &[(&str, &str, &str)]) -> ColumnarBatch {
    ColumnarBatch {
        columns: vec![
            texts(&rows.iter().map(|r| r.0).collect::<Vec<_>>()),
            texts(&rows.iter().map(|r| r.1).collect::<Vec<_>>()),
            texts(&rows.iter().map(|r| r.2).collect::<Vec<_>>()),
            Column::TimestampMicros(vec![None; rows.len()]),
            Column::TimestampMicros(vec![None; rows.len()]),
        ],
    }
}

fn pe(src_var: u32, tgt_var: u32, edge_type: &str, direction: Option<&str>) -> JsPatternEdge {
    JsPatternEdge {
        src_var,
        tgt_var,
        edge_type: edge_type.to_string(),
        direction: direction.map(|d| d.to_string()),
    }
}

fn triangle() -> NativeGraph {
    let mut g = NativeGraph::new();
    g.add_edge("A", "B", "t", None, None).unwrap();
    g.add_edge("B", "C", "t", None, None).unwrap();
    g.add_edge("A", "C", "t", None, None).unwrap();
    g
}

#[test]
fn direction_text() {
    assert_eq!(parse_direction(Some("in")), Direction::Incoming);
    assert_eq!(parse_direction(Some("IN")), Direction::Incoming);
    assert_eq!(parse_direction(Some("out")), Direction::Outgoing);
    assert_eq!(parse_direction(Some("In")), Direction::Outgoing);
    assert_eq!(parse_direction(Some("")), Direction::Outgoing);
    assert_eq!(parse_direction(Some("inward")), Direction::Outgoing);
    assert_eq!(parse_direction(None), Direction::Outgoing);
}

#[test]
fn host_adds_and_counts() {
    let mut g = NativeGraph::default();
    assert_eq!(g.node_count(), 0);
    assert_eq!(g.add_node("A"), Ok(()));
    assert_eq!(g.add_node("A"), Ok(()));
    assert_eq!(g.node_count(), 1);
    assert_eq!(g.add_edge("A", "B", "knows", None, None), Ok(()));
    assert_eq!(g.node_count(), 2);
    assert_eq!(g.edge_count(), 1);
}

#[test]
fn host_traverses_by_direction_text() {
    let mut g = NativeGraph::new();
    g.add_edge("A", "B", "knows", None, None).unwrap();
    assert_eq!(g.traverse(&names(&["A"]), Some("knows"), Some("out"), None), names(&["B"]));
    assert_eq!(g.traverse(&names(&["A"]), Some("knows"), None, None), names(&["B"]));
    assert_eq!(g.traverse(&names(&["B"]), Some("knows"), Some("in"), None), names(&["A"]));
    assert_eq!(g.traverse(&names(&["B"]), Some("knows"), Some("IN"), None), names(&["A"]));
    assert_eq!(g.traverse(&names(&["B"]), Some("knows"), Some("out"), None), names(&[]));
    assert_eq!(g.traverse(&names(&["B"]), None, Some("in"), None), names(&["A"]));
}

#[test]
fn host_timestamps_are_microseconds() {
    let mut g = NativeGraph::new();
    g.add_edge("A", "B", "k", Some(1_000), Some(2_000)).unwrap();
    g.add_edge("A", "C", "k", Some(1_500), None).unwrap();
    let a = names(&["A"]);
    assert_eq!(g.traverse(&a, Some("k"), Some("out"), Some(1_200)), names(&["B"]));
    assert_eq!(g.traverse(&a, Some("k"), Some("out"), Some(1_800)), names(&["B", "C"]));
    assert_eq!(g.traverse(&a, Some("k"), Some("out"), Some(2_500)), names(&["C"]));
    assert_eq!(g.traverse(&a, Some("k"), Some("out"), None), names(&["B", "C"]));
}

#[test]
fn host_depths_default_to_one() {
    let mut g = NativeGraph::new();
    g.add_edge("A", "B", "k", None, None).unwrap();
    g.add_edge("B", "C", "k", None, None).unwrap();
    let a = names(&["A"]);
    assert_eq!(g.traverse_recursive(&a, None, None, None, None, None), names(&["B"]));
    assert_eq!(g.traverse_recursive(&a, None, None, None, Some(2), None), names(&["B", "C"]));
    assert_eq!(g.traverse_recursive(&a, None, None, Some(2), Some(2), None), names(&["C"]));
    assert_eq!(g.traverse_recursive(&a, None, None, Some(2), None, None), names(&[]));
    assert_eq!(
        g.traverse_recursive(&names(&["C"]), Some("k"), Some("in"), Some(1), Some(5), None),
        names(&["B", "A"])
    );
}

#[test]
fn host_removes() {
    let mut g = triangle();
    g.remove_edge("A", "B", "t");
    assert_eq!(g.traverse(&names(&["A"]), None, None, None), names(&["C"]));
    g.remove_node("C");
    assert_eq!(g.traverse(&names(&["A"]), None, None, None), names(&[]));
    assert_eq!(g.node_count(), 3);
    assert_eq!(g.edge_count(), 3);
    g.compact();
    assert_eq!(g.edge_count(), 0);
}

#[test]
fn host_matches_a_triangle() {
    let g = triangle();
    let pattern = vec![pe(0, 1, "t", None), pe(1, 2, "t", Some("out")), pe(0, 2, "t", None)];
    assert_eq!(g.match_pattern(&names(&["A"]), &pattern, None), vec![names(&["A", "B", "C"])]);
    assert_eq!(
        g.match_pattern(&names(&["A", "B", "C"]), &pattern, None),
        vec![names(&["A", "B", "C"])]
    );
    let backwards = vec![pe(0, 1, "t", Some("in")), pe(1, 2, "t", Some("IN"))];
    assert_eq!(
        g.match_pattern(&names(&["A", "B", "C"]), &backwards, None),
        vec![names(&["C", "B", "A"])]
    );
}

#[test]
fn host_match_of_a_self_loop_finds_nothing() {
    let mut g = NativeGraph::new();
    g.add_edge("A", "A", "t", None, None).unwrap();
    assert_eq!(
        g.match_pattern(&names(&["A"]), &[pe(0, 1, "t", None)], None),
        Vec::<Vec<String>>::new()
    );
    assert_eq!(
        g.match_pattern(&names(&["A"]), &[pe(0, 0, "t", None)], None),
        Vec::<Vec<String>>::new()
    );
}

#[test]
fn host_match_with_unknown_names_finds_nothing() {
    let g = triangle();
    let none = Vec::<Vec<String>>::new();
    assert_eq!(g.match_pattern(&names(&["A"]), &[pe(0, 1, "unknown", None)], None), none);
    assert_eq!(
        g.match_pattern(&names(&["A"]), &[pe(0, 1, "t", None), pe(1, 2, "unknown", None)], None),
        none
    );
    assert_eq!(g.match_pattern(&names(&["Z"]), &[pe(0, 1, "t", None)], None), none);
    assert_eq!(g.match_pattern(&names(&[]), &[pe(0, 1, "t", None)], None), none);
    assert_eq!(g.node_count(), 3);
}

#[test]
fn host_match_applies_the_temporal_filter() {
    let mut g = NativeGraph::new();
    g.add_edge("A", "B", "t", Some(0), Some(10)).unwrap();
    let pattern = [pe(0, 1, "t", None)];
    assert_eq!(g.match_pattern(&names(&["A"]), &pattern, Some(5)), vec![names(&["A", "B"])]);
    assert_eq!(g.match_pattern(&names(&["A"]), &pattern, Some(10)), Vec::<Vec<String>>::new());
    assert_eq!(g.match_pattern(&names(&["A"]), &pattern, None), vec![names(&["A", "B"])]);
}

#[test]
fn host_loads_batches_in_order() {
    let mut g = NativeGraph::new();
    let batches = vec![
        Ok(batch(&[("A", "B", "k"), ("A", "B", "k")])),
        Ok(batch(&[])),
        Ok(batch(&[("B", "C", "k")])),
    ];
    assert_eq!(g.load_arrow_ipc(&batches), Ok(()));
    assert_eq!(g.node_count(), 3);
    assert_eq!(g.edge_count(), 3);
    g.compact();
    assert_eq!(g.edge_count(), 2);
    assert_eq!(g.traverse_recursive(&names(&["A"]), None, None, Some(1), Some(2), None), names(&["B", "C"]));
}

#[test]
fn host_stops_at_the_first_bad_batch() {
    let mut g = NativeGraph::new();
    let mut broken = batch(&[("X", "Y", "k")]);
    broken.columns.truncate(2);
    let batches =
        vec![Ok(batch(&[("A", "B", "k")])), Ok(broken), Ok(batch(&[("B", "C", "k")]))];
    assert_eq!(
        g.load_arrow_ipc(&batches),
        Err(GraphError::DecodeError { row: None, column: Some(2) })
    );
    assert_eq!(g.node_count(), 2);
    assert_eq!(g.edge_count(), 1);
    assert_eq!(g.load_arrow_ipc(&[]), Ok(()));
}

#[test]
fn host_stops_where_the_stream_cannot_be_read() {
    let mut g = NativeGraph::new();
    let items = vec![
        Ok(batch(&[("A", "B", "k")])),
        Err("unexpected end of stream".to_string()),
        Ok(batch(&[("B", "C", "k")])),
        Err("never seen".to_string()),
    ];
    assert_eq!(
        g.load_arrow_ipc(&items),
        Err(GraphError::IoError("unexpected end of stream".to_string()))
    );
    assert_eq!(g.node_count(), 2);
    assert_eq!(g.edge_count(), 1);
    assert_eq!(
        g.load_arrow_ipc(&[Err("not a stream".to_string())]),
        Err(GraphError::IoError("not a stream".to_string()))
    );
    assert_eq!(g.node_count(), 2);
}

#[test]
fn host_saves_and_loads() {
    let g = triangle();
    let mut h = NativeGraph::new();
    h.add_edge("X", "Y", "other", None, None).unwrap();
    assert_eq!(h.load_snapshot(g.save_snapshot()), Ok(()));
    assert_eq!(h.node_count(), 3);
    assert_eq!(h.traverse(&names(&["A"]), Some("t"), None, None), names(&["B", "C"]));
    assert_eq!(h.traverse(&names(&["X"]), None, None, None), names(&[]));
}

#[test]
fn host_keeps_its_graph_when_a_load_fails() {
    let mut h = triangle();
    let mut s = h.save_snapshot();
    s.version = 7;
    assert_eq!(h.load_snapshot(s), Err(GraphError::SnapshotVersionMismatch { found: 7 }));
    let mut t = NativeGraph::new().save_snapshot();
    t.deleted.push(true);
    assert_eq!(h.load_snapshot_from(Ok(t)), Err(GraphError::DecodeError { row: None, column: None }));
    assert_eq!(
        h.load_snapshot_from(Err("no such file".to_string())),
        Err(GraphError::IoError("no such file".to_string()))
    );
    assert_eq!(h.node_count(), 3);
    assert_eq!(h.edge_count(), 3);
    assert_eq!(h.load_snapshot_from(Ok(NativeGraph::new().save_snapshot())), Ok(()));
    assert_eq!(h.node_count(), 0);
}

#[test]
fn host_write_outcome() {
    assert_eq!(NativeGraph::save_outcome(Ok(())), Ok(()));
    assert_eq!(
        NativeGraph::save_outcome(Err("read-only".to_string())),
        Err(GraphError::IoError("read-only".to_string()))
    );
}
