use quack_core::matcher::{Matcher, PatternEdge};
use quack_core::{Direction, GraphIndex};

fn edge(src_var: usize, tgt_var: usize, type_id: u8) -> PatternEdge {
    PatternEdge { src_var, tgt_var, type_id, direction: Direction::Outgoing }
}

fn edge_in(src_var: usize, tgt_var: usize, type_id: u8) -> PatternEdge {
    PatternEdge { src_var, tgt_var, type_id, direction: Direction::Incoming }
}

fn sorted(mut rows: Vec<Vec<u32>>) -> Vec<Vec<u32>> {
    rows.sort();
    rows
}

fn triangle() -> GraphIndex {
    let mut g = GraphIndex::new();
    g.add_edge("A", "B", "t", None, None).unwrap();
    g.add_edge("B", "C", "t", None, None).unwrap();
    g.add_edge("A", "C", "t", None, None).unwrap();
    g
}

#[test]
fn pattern_match_triangle() {
    let g = triangle();
    let pattern = vec![edge(0, 1, 0), edge(1, 2, 0), edge(0, 2, 0)];
    let m = Matcher::new(&g, &pattern);
    assert_eq!(m.find_matches(&[0], None), vec![vec![0, 1, 2]]);
    assert_eq!(m.find_matches(&[0, 1, 2], None), vec![vec![0, 1, 2]]);
    assert_eq!(m.find_matches(&[1], None), Vec::<Vec<u32>>::new());
}

#[test]
fn pattern_injectivity() {
    let mut g = GraphIndex::new();
    g.add_edge("A", "A", "t", None, None).unwrap();
    let pattern = vec![edge(0, 1, 0)];
    let m = Matcher::new(&g, &pattern);
    assert_eq!(m.find_matches(&[0], None), Vec::<Vec<u32>>::new());
}

#[test]
fn pattern_edge_on_one_variable_matches_nothing() {
    let mut g = GraphIndex::new();
    g.add_edge("A", "A", "t", None, None).unwrap();
    g.add_edge("A", "B", "t", None, None).unwrap();
    let single = vec![edge(0, 0, 0)];
    assert_eq!(Matcher::new(&g, &single).find_matches(&[0], None), Vec::<Vec<u32>>::new());
    let mixed = vec![edge(0, 1, 0), edge(1, 1, 0)];
    assert_eq!(Matcher::new(&g, &mixed).find_matches(&[0], None), Vec::<Vec<u32>>::new());
}

#[test]
fn disconnected_pattern_matches_nothing() {
    let g = triangle();
    let gap = vec![edge(0, 2, 0)];
    assert_eq!(Matcher::new(&g, &gap).find_matches(&[0], None), Vec::<Vec<u32>>::new());
    let far = vec![edge(0, 1, 0), edge(2, 3, 0)];
    assert_eq!(Matcher::new(&g, &far).find_matches(&[0, 1, 2], None), Vec::<Vec<u32>>::new());
    let huge = vec![edge(0, usize::MAX, 0)];
    assert_eq!(Matcher::new(&g, &huge).find_matches(&[0], None), Vec::<Vec<u32>>::new());
}

#[test]
fn empty_pattern_matches_each_live_start_once() {
    let mut g = triangle();
    g.remove_node("B");
    let pattern: Vec<PatternEdge> = Vec::new();
    let m = Matcher::new(&g, &pattern);
    assert_eq!(m.find_matches(&[2, 1, 0, 2, 9], None), vec![vec![2], vec![0]]);
    assert_eq!(m.find_matches(&[], None), Vec::<Vec<u32>>::new());
}

#[test]
fn path_pattern_finds_every_path() {
    let g = triangle();
    let pattern = vec![edge(0, 1, 0)];
    let m = Matcher::new(&g, &pattern);
    assert_eq!(
        sorted(m.find_matches(&[0, 1, 2], None)),
        vec![vec![0, 1], vec![0, 2], vec![1, 2]]
    );
    let two = vec![edge(0, 1, 0), edge(1, 2, 0)];
    assert_eq!(Matcher::new(&g, &two).find_matches(&[0, 1, 2], None), vec![vec![0, 1, 2]]);
}

#[test]
fn incoming_pattern_edge_runs_backwards() {
    let g = triangle();
    let pattern = vec![edge_in(0, 1, 0)];
    let m = Matcher::new(&g, &pattern);
    assert_eq!(
        sorted(m.find_matches(&[0, 1, 2], None)),
        vec![vec![1, 0], vec![2, 0], vec![2, 1]]
    );
    let reversed_triangle = vec![edge_in(1, 0, 0), edge_in(2, 1, 0), edge(0, 2, 0)];
    assert_eq!(
        Matcher::new(&g, &reversed_triangle).find_matches(&[0, 1, 2], None),
        vec![vec![0, 1, 2]]
    );
}

#[test]
fn pattern_edge_from_a_later_variable() {
    let g = triangle();
    let pattern = vec![edge(1, 0, 0)];
    let m = Matcher::new(&g, &pattern);
    assert_eq!(
        sorted(m.find_matches(&[0, 1, 2], None)),
        vec![vec![1, 0], vec![2, 0], vec![2, 1]]
    );
}

#[test]
fn matches_respect_edge_types() {
    let mut g = GraphIndex::new();
    g.add_edge("A", "B", "t", None, None).unwrap();
    g.add_edge("A", "C", "u", None, None).unwrap();
    g.add_edge("B", "C", "u", None, None).unwrap();
    let pattern = vec![edge(0, 1, 0), edge(1, 2, 1), edge(0, 2, 1)];
    assert_eq!(Matcher::new(&g, &pattern).find_matches(&[0], None), vec![vec![0, 1, 2]]);
    let wrong = vec![edge(0, 1, 1), edge(1, 2, 0)];
    assert_eq!(Matcher::new(&g, &wrong).find_matches(&[0], None), Vec::<Vec<u32>>::new());
}

#[test]
fn matches_skip_tombstoned_nodes() {
    let mut g = triangle();
    g.add_edge("A", "D", "t", None, None).unwrap();
    g.remove_node("B");
    let pattern = vec![edge(0, 1, 0)];
    let m = Matcher::new(&g, &pattern);
    assert_eq!(sorted(m.find_matches(&[0, 1], None)), vec![vec![0, 2], vec![0, 3]]);
}

#[test]
fn matches_skip_removed_edges() {
    let mut g = triangle();
    g.remove_edge("A", "C", "t");
    let pattern = vec![edge(0, 1, 0), edge(1, 2, 0), edge(0, 2, 0)];
    assert_eq!(Matcher::new(&g, &pattern).find_matches(&[0], None), Vec::<Vec<u32>>::new());
    let path = vec![edge(0, 1, 0), edge(1, 2, 0)];
    assert_eq!(Matcher::new(&g, &path).find_matches(&[0], None), vec![vec![0, 1, 2]]);
}

#[test]
fn matches_apply_the_temporal_filter() {
    let mut g = GraphIndex::new();
    g.add_edge("A", "B", "t", Some(0), Some(10)).unwrap();
    g.add_edge("B", "C", "t", Some(5), None).unwrap();
    let pattern = vec![edge(0, 1, 0), edge(1, 2, 0)];
    let m = Matcher::new(&g, &pattern);
    assert_eq!(m.find_matches(&[0], Some(7)), vec![vec![0, 1, 2]]);
    assert_eq!(m.find_matches(&[0], Some(3)), Vec::<Vec<u32>>::new());
    assert_eq!(m.find_matches(&[0], Some(10)), Vec::<Vec<u32>>::new());
    assert_eq!(m.find_matches(&[0], None), vec![vec![0, 1, 2]]);
}

#[test]
fn duplicate_edges_give_each_match_once() {
    let mut g = GraphIndex::new();
    g.add_edge("A", "B", "t", None, None).unwrap();
    g.add_edge("A", "B", "t", None, None).unwrap();
    g.add_edge("A", "B", "t", Some(1), Some(2)).unwrap();
    let pattern = vec![edge(0, 1, 0)];
    assert_eq!(Matcher::new(&g, &pattern).find_matches(&[0, 0], None), vec![vec![0, 1]]);
}

#[test]
fn star_pattern_binds_distinct_leaves() {
    let mut g = GraphIndex::new();
    g.add_edge("H", "X", "t", None, None).unwrap();
    g.add_edge("H", "Y", "t", None, None).unwrap();
    g.add_edge("H", "Z", "t", None, None).unwrap();
    let pattern = vec![edge(0, 1, 0), edge(0, 2, 0)];
    let found = sorted(Matcher::new(&g, &pattern).find_matches(&[0], None));
    assert_eq!(
        found,
        vec![
            vec![0, 1, 2],
            vec![0, 1, 3],
            vec![0, 2, 1],
            vec![0, 2, 3],
            vec![0, 3, 1],
            vec![0, 3, 2]
        ]
    );
}

#[test]
fn matches_come_in_the_order_of_the_search() {
    let mut g = GraphIndex::new();
    g.add_edge("H", "Z", "t", None, None).unwrap();
    g.add_edge("H", "X", "t", None, None).unwrap();
    g.add_edge("G", "X", "t", None, None).unwrap();
    g.add_edge("H", "Y", "t", None, None).unwrap();
    let pattern = vec![edge(0, 1, 0), edge(0, 2, 0)];
    let m = Matcher::new(&g, &pattern);
    assert_eq!(
        m.find_matches(&[3, 0], None),
        vec![
            vec![0, 1, 2],
            vec![0, 1, 4],
            vec![0, 2, 1],
            vec![0, 2, 4],
            vec![0, 4, 1],
            vec![0, 4, 2]
        ]
    );
    let shared = vec![edge(0, 1, 0), edge_in(1, 2, 0)];
    assert_eq!(
        Matcher::new(&g, &shared).find_matches(&[3, 0], None),
        vec![vec![3, 2, 0], vec![0, 2, 3]]
    );
}

#[test]
fn high_variable_of_a_pattern_edge() {
    assert_eq!(edge(3, 7, 0).high_var(), 7);
    assert_eq!(edge(7, 3, 0).high_var(), 7);
    assert_eq!(edge(4, 4, 0).high_var(), 4);
}
