use quack_core::ingest::{column_length, Column, ColumnarBatch};
use quack_core::{Direction, GraphError, GraphIndex};

fn names(list: &[&str]) -> Vec<String> {
    list.iter().map(|s| s.to_string()).collect()
}

fn texts(list: &[&str]) -> Column {
    Column::Utf8(list.iter().map(|s| Some(s.to_string())).collect())
}

fn times(list: &[Option<i64>]) -> Column {
    Column::TimestampMicros(list.to_vec())
}

fn batch(rows: &[(&str, &str, &str, Option<i64>, Option<i64>)]) -> ColumnarBatch {
    ColumnarBatch {
        columns: vec![
            texts(&rows.iter().map(|r| r.0).collect::<Vec<_>>()),
            texts(&rows.iter().map(|r| r.1).collect::<Vec<_>>()),
            texts(&rows.iter().map(|r| r.2).collect::<Vec<_>>()),
            times(&rows.iter().map(|r| r.3).collect::<Vec<_>>()),
            times(&rows.iter().map(|r| r.4).collect::<Vec<_>>()),
        ],
    }
}

fn decode_error(row: Option<usize>, column: Option<usize>) -> Result<(), GraphError> {
    Err(GraphError::DecodeError { row, column })
}

#[test]
fn batch_ingestion_equals_repeated_add_edge() {
    let rows = [
        ("A", "B", "k", Some(1_000), Some(2_000)),
        ("A", "C", "k", Some(1_500), None),
        ("C", "A", "j", None, None),
        ("A", "B", "k", Some(1_000), Some(2_000)),
    ];
    let mut bulk = GraphIndex::new();
    assert_eq!(bulk.add_arrow_batch(&batch(&rows)), Ok(()));
    let mut single = GraphIndex::new();
    for (s, t, l, vf, vt) in rows {
        single.add_edge(s, t, l, vf, vt).unwrap();
    }
    assert_eq!(bulk.node_count(), 3);
    assert_eq!(bulk.edge_count(), 4);
    let a = bulk.to_snapshot();
    let b = single.to_snapshot();
    assert_eq!(a.nodes, b.nodes);
    assert_eq!(a.types, b.types);
    assert_eq!(a.deleted, b.deleted);
    for u in 0..3 {
        assert_eq!(a.outgoing[u].len(), b.outgoing[u].len());
        assert_eq!(a.incoming[u].len(), b.incoming[u].len());
        for i in 0..a.outgoing[u].len() {
            assert!(a.outgoing[u][i].same(&b.outgoing[u][i]));
        }
        for i in 0..a.incoming[u].len() {
            assert!(a.incoming[u][i].same(&b.incoming[u][i]));
        }
    }
    assert_eq!(
        bulk.traverse(&names(&["A"]), Some("k"), Direction::Outgoing, Some(1_800)),
        names(&["B", "C"])
    );
}

#[test]
fn empty_batch_changes_nothing() {
    let mut g = GraphIndex::new();
    assert_eq!(g.add_arrow_batch(&batch(&[])), Ok(()));
    assert_eq!(g.node_count(), 0);
    assert_eq!(g.edge_count(), 0);
}

#[test]
fn batch_with_a_missing_column_is_refused() {
    let mut g = GraphIndex::new();
    let mut b = batch(&[("A", "B", "k", None, None)]);
    b.columns.pop();
    assert_eq!(g.add_arrow_batch(&b), decode_error(None, Some(4)));
    b.columns.clear();
    assert_eq!(g.add_arrow_batch(&b), decode_error(None, Some(0)));
    assert_eq!(g.node_count(), 0);
}

#[test]
fn batch_with_a_column_of_the_wrong_type_is_refused() {
    let mut g = GraphIndex::new();
    let mut b = batch(&[("A", "B", "k", None, None)]);
    b.columns[1] = times(&[Some(3)]);
    assert_eq!(g.add_arrow_batch(&b), decode_error(None, Some(1)));
    let mut c = batch(&[("A", "B", "k", None, None)]);
    c.columns[3] = texts(&["soon"]);
    assert_eq!(g.add_arrow_batch(&c), decode_error(None, Some(3)));
    let mut d = batch(&[("A", "B", "k", None, None)]);
    d.columns[2] = Column::Other(1);
    d.columns[4] = Column::Other(1);
    assert_eq!(g.add_arrow_batch(&d), decode_error(None, Some(2)));
    assert_eq!(g.node_count(), 0);
    assert_eq!(g.edge_count(), 0);
}

#[test]
fn batch_with_columns_of_different_lengths_is_refused() {
    let mut g = GraphIndex::new();
    let mut b = batch(&[("A", "B", "k", None, None), ("B", "C", "k", None, None)]);
    b.columns[4] = times(&[None]);
    assert_eq!(g.add_arrow_batch(&b), decode_error(None, Some(4)));
    assert_eq!(g.node_count(), 0);
}

#[test]
fn batch_with_a_null_in_a_string_column_is_refused_whole() {
    let mut g = GraphIndex::new();
    let mut b = batch(&[
        ("A", "B", "k", None, None),
        ("B", "C", "k", None, None),
        ("C", "D", "k", None, None),
    ]);
    b.columns[2] = Column::Utf8(vec![Some("k".to_string()), Some("k".to_string()), None]);
    b.columns[1] = Column::Utf8(vec![Some("B".to_string()), None, None]);
    assert_eq!(g.add_arrow_batch(&b), decode_error(Some(1), Some(1)));
    assert_eq!(g.node_count(), 0);
    assert_eq!(g.edge_count(), 0);
    assert_eq!(b.validate(), Err(GraphError::DecodeError { row: Some(1), column: Some(1) }));
}

#[test]
fn batch_may_hold_null_timestamps_and_further_columns() {
    let mut g = GraphIndex::new();
    let mut b = batch(&[("A", "B", "k", None, Some(5)), ("A", "C", "k", Some(5), None)]);
    b.columns.push(Column::Other(7));
    assert_eq!(b.validate(), Ok(2));
    assert_eq!(g.add_arrow_batch(&b), Ok(()));
    assert_eq!(g.traverse(&names(&["A"]), None, Direction::Outgoing, Some(4)), names(&["B"]));
    assert_eq!(g.traverse(&names(&["A"]), None, Direction::Outgoing, Some(5)), names(&["C"]));
}

#[test]
fn batch_that_needs_too_many_edge_types_stops_at_that_row() {
    let mut g = GraphIndex::new();
    for i in 0..255 {
        g.add_edge("A", "B", &format!("t{}", i), None, None).unwrap();
    }
    let b = batch(&[
        ("A", "C", "new", None, None),
        ("A", "D", "newer", None, None),
        ("A", "E", "new", None, None),
    ]);
    assert_eq!(g.add_arrow_batch(&b), Err(GraphError::TooManyEdgeTypes));
    assert_eq!(g.edge_count(), 256);
    assert_eq!(g.node_count(), 3);
    assert_eq!(g.lookup_id("C"), Some(2));
    assert_eq!(g.lookup_id("D"), None);
}

#[test]
fn column_lengths() {
    assert_eq!(column_length(&texts(&["a", "b"])), 2);
    assert_eq!(column_length(&times(&[None, None, Some(1)])), 3);
    assert_eq!(column_length(&Column::Other(9)), 9);
}
