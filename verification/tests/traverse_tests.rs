use quack_core::{Direction, GraphIndex};

fn names(list: &[&str]) -> Vec<String> {
    list.iter().map(|s| s.to_string()).collect()
}

fn sorted(mut v: Vec<String>) -> Vec<String> {
    v.sort();
    v
}

fn chain() -> GraphIndex {
    let mut g = GraphIndex::new();
    g.add_edge("A", "B", "k", None, None).unwrap();
    g.add_edge("B", "C", "k", None, None).unwrap();
    g.add_edge("C", "D", "k", None, None).unwrap();
    g.add_edge("D", "E", "k", None, None).unwrap();
    g
}

#[test]
fn traverse_returns_unique_neighbors_in_order_of_discovery() {
    let mut g = GraphIndex::new();
    g.add_edge("A", "C", "k", None, None).unwrap();
    g.add_edge("A", "B", "k", None, None).unwrap();
    g.add_edge("B", "C", "k", None, None).unwrap();
    g.add_edge("B", "D", "j", None, None).unwrap();
    assert_eq!(
        g.traverse(&names(&["A", "B"]), None, Direction::Outgoing, None),
        names(&["C", "B", "D"])
    );
    assert_eq!(
        g.traverse(&names(&["B", "A", "B"]), None, Direction::Outgoing, None),
        names(&["C", "D", "B"])
    );
    assert_eq!(
        g.traverse(&names(&["A", "B"]), Some("k"), Direction::Outgoing, None),
        names(&["C", "B"])
    );
}

#[test]
fn traverse_skips_unknown_sources() {
    let g = chain();
    assert_eq!(
        g.traverse(&names(&["nobody", "A", "nothing"]), None, Direction::Outgoing, None),
        names(&["B"])
    );
    assert_eq!(g.traverse(&names(&["nobody"]), None, Direction::Outgoing, None), names(&[]));
    assert_eq!(g.traverse(&names(&[]), None, Direction::Outgoing, None), names(&[]));
    assert_eq!(g.node_count(), 5);
}

#[test]
fn traverse_with_unknown_edge_type_finds_nothing() {
    let g = chain();
    assert_eq!(g.traverse(&names(&["A"]), Some("nope"), Direction::Outgoing, None), names(&[]));
    assert_eq!(
        g.traverse_recursive(&names(&["A"]), Some("nope"), Direction::Outgoing, 1, 5, None),
        names(&[])
    );
}

#[test]
fn traverse_ids_and_names() {
    let g = chain();
    let ids = g.resolve_ids(&names(&["C", "zzz", "A"]));
    assert_eq!(ids, vec![2, 0]);
    assert_eq!(g.traverse_ids(&ids, None, Direction::Outgoing, None), vec![3, 1]);
    assert_eq!(g.traverse_ids(&ids, None, Direction::Incoming, None), vec![1]);
    assert_eq!(g.names_of(&[3, 1]), names(&["D", "B"]));
    assert_eq!(g.resolve_type(None), Some(None));
    assert_eq!(g.resolve_type(Some("k")), Some(Some(0)));
    assert_eq!(g.resolve_type(Some("q")), None);
}

#[test]
fn later_query_sees_what_an_earlier_one_saw_when_nothing_ends() {
    let mut g = GraphIndex::new();
    g.add_edge("A", "B", "k", Some(100), None).unwrap();
    g.add_edge("A", "C", "k", Some(200), None).unwrap();
    g.add_edge("A", "D", "k", None, None).unwrap();
    let a = names(&["A"]);
    let stamps = [None, Some(500), Some(250), Some(200), Some(150), Some(100), Some(50)];
    let views: Vec<Vec<String>> = stamps
        .iter()
        .map(|ts| g.traverse(&a, Some("k"), Direction::Outgoing, *ts))
        .collect();
    assert_eq!(views[6], names(&["D"]));
    assert_eq!(views[5], names(&["B", "D"]));
    assert_eq!(views[3], names(&["B", "C", "D"]));
    assert_eq!(views[0], names(&["B", "C", "D"]));
    for later in 0..views.len() {
        for earlier in later..views.len() {
            for name in &views[earlier] {
                assert!(views[later].contains(name));
            }
        }
    }
}

#[test]
fn later_query_may_lose_an_edge_that_ends() {
    let mut g = GraphIndex::new();
    g.add_edge("A", "B", "k", Some(100), Some(200)).unwrap();
    let a = names(&["A"]);
    assert_eq!(g.traverse(&a, None, Direction::Outgoing, Some(150)), names(&["B"]));
    assert_eq!(g.traverse(&a, None, Direction::Outgoing, Some(250)), names(&[]));
}

#[test]
fn recursive_traversal_by_depth() {
    let g = chain();
    let a = names(&["A"]);
    let out = Direction::Outgoing;
    assert_eq!(g.traverse_recursive(&a, None, out, 1, 1, None), names(&["B"]));
    assert_eq!(g.traverse_recursive(&a, None, out, 2, 2, None), names(&["C"]));
    assert_eq!(g.traverse_recursive(&a, None, out, 1, 3, None), names(&["B", "C", "D"]));
    assert_eq!(g.traverse_recursive(&a, None, out, 2, 4, None), names(&["C", "D", "E"]));
    assert_eq!(g.traverse_recursive(&a, None, out, 4, 100, None), names(&["E"]));
    assert_eq!(g.traverse_recursive(&a, None, out, 5, 100, None), names(&[]));
    assert_eq!(g.traverse_recursive(&a, None, out, 1, usize::MAX, None).len(), 4);
    assert_eq!(
        g.traverse_recursive(&names(&["E"]), None, Direction::Incoming, 2, 3, None),
        names(&["C", "B"])
    );
}

#[test]
fn recursive_traversal_outside_its_bounds() {
    let g = chain();
    let a = names(&["A"]);
    let out = Direction::Outgoing;
    assert_eq!(g.traverse_recursive(&a, None, out, 3, 2, None), names(&[]));
    assert_eq!(g.traverse_recursive(&a, None, out, 0, 0, None), names(&[]));
    assert_eq!(g.traverse_recursive(&a, None, out, 0, 1, None), names(&["B"]));
    assert_eq!(g.traverse_recursive(&a, None, out, 1, 0, None), names(&[]));
}

#[test]
fn recursive_traversal_ends_on_cycles() {
    let mut g = GraphIndex::new();
    g.add_edge("A", "B", "k", None, None).unwrap();
    g.add_edge("B", "C", "k", None, None).unwrap();
    g.add_edge("C", "A", "k", None, None).unwrap();
    g.add_edge("B", "B", "k", None, None).unwrap();
    let a = names(&["A"]);
    assert_eq!(
        g.traverse_recursive(&a, None, Direction::Outgoing, 1, usize::MAX, None),
        names(&["B", "C"])
    );
    assert_eq!(g.traverse_recursive(&a, None, Direction::Outgoing, 3, 3, None), names(&[]));
}

#[test]
fn recursive_traversal_never_returns_sources() {
    let mut g = GraphIndex::new();
    g.add_edge("A", "B", "k", None, None).unwrap();
    g.add_edge("B", "A", "k", None, None).unwrap();
    g.add_edge("B", "C", "k", None, None).unwrap();
    assert_eq!(
        g.traverse_recursive(&names(&["A", "B"]), None, Direction::Outgoing, 1, 9, None),
        names(&["C"])
    );
    assert_eq!(
        g.traverse_recursive(&names(&["A", "A"]), None, Direction::Outgoing, 1, 1, None),
        names(&["B"])
    );
}

#[test]
fn recursive_traversal_goes_by_the_shortest_path() {
    let mut g = GraphIndex::new();
    g.add_edge("A", "B", "k", None, None).unwrap();
    g.add_edge("B", "C", "k", None, None).unwrap();
    g.add_edge("A", "C", "k", None, None).unwrap();
    g.add_edge("C", "D", "k", None, None).unwrap();
    let a = names(&["A"]);
    let out = Direction::Outgoing;
    assert_eq!(sorted(g.traverse_recursive(&a, None, out, 1, 1, None)), names(&["B", "C"]));
    assert_eq!(g.traverse_recursive(&a, None, out, 2, 2, None), names(&["D"]));
    assert_eq!(g.traverse_recursive(&a, None, out, 3, 3, None), names(&[]));
}

#[test]
fn recursive_traversal_does_not_pass_tombstoned_nodes() {
    let mut g = chain();
    g.remove_node("C");
    let a = names(&["A"]);
    assert_eq!(g.traverse_recursive(&a, None, Direction::Outgoing, 1, 9, None), names(&["B"]));
    assert_eq!(
        g.traverse_recursive(&names(&["C"]), None, Direction::Outgoing, 1, 9, None),
        names(&[])
    );
}

#[test]
fn recursive_traversal_applies_the_temporal_filter() {
    let mut g = GraphIndex::new();
    g.add_edge("A", "B", "k", Some(0), Some(10)).unwrap();
    g.add_edge("B", "C", "k", Some(5), Some(20)).unwrap();
    let a = names(&["A"]);
    let out = Direction::Outgoing;
    assert_eq!(g.traverse_recursive(&a, None, out, 1, 2, Some(7)), names(&["B", "C"]));
    assert_eq!(g.traverse_recursive(&a, None, out, 1, 2, Some(3)), names(&["B"]));
    assert_eq!(g.traverse_recursive(&a, None, out, 1, 2, Some(12)), names(&[]));
    assert_eq!(g.traverse_recursive(&a, None, out, 1, 2, None), names(&["B", "C"]));
}

#[test]
fn exact_depth_is_repeated_single_hops_less_sources() {
    let mut g = GraphIndex::new();
    g.add_edge("A", "B", "k", None, None).unwrap();
    g.add_edge("A", "C", "k", None, None).unwrap();
    g.add_edge("B", "D", "k", None, None).unwrap();
    g.add_edge("C", "D", "k", None, None).unwrap();
    g.add_edge("C", "E", "k", None, None).unwrap();
    g.add_edge("D", "F", "k", None, None).unwrap();
    g.add_edge("E", "F", "k", None, None).unwrap();
    g.add_edge("F", "A", "k", None, None).unwrap();
    let sources = names(&["A"]);
    let out = Direction::Outgoing;
    let mut layer = sources.clone();
    for depth in 1..=3usize {
        layer = g.traverse(&layer, None, out, None);
        let expected: Vec<String> =
            layer.iter().filter(|n| !sources.contains(n)).cloned().collect();
        let found = g.traverse_recursive(&sources, None, out, depth, depth, None);
        assert_eq!(sorted(found), sorted(expected));
    }
    assert_eq!(g.traverse_recursive(&sources, None, out, 3, 3, None), names(&["F"]));
    assert_eq!(g.traverse_recursive(&sources, None, out, 4, 4, None), names(&[]));
}

#[test]
fn recursive_traversal_returns_nodes_in_order_of_discovery() {
    let mut g = GraphIndex::new();
    g.add_edge("S", "C", "k", None, None).unwrap();
    g.add_edge("S", "A", "k", None, None).unwrap();
    g.add_edge("T", "B", "k", None, None).unwrap();
    g.add_edge("A", "E", "k", None, None).unwrap();
    g.add_edge("C", "D", "k", None, None).unwrap();
    g.add_edge("C", "E", "k", None, None).unwrap();
    g.add_edge("B", "S", "k", None, None).unwrap();
    let out = Direction::Outgoing;
    assert_eq!(
        g.traverse_recursive(&names(&["T", "S", "T"]), None, out, 1, 2, None),
        names(&["B", "C", "A", "D", "E"])
    );
    assert_eq!(
        g.traverse_recursive(&names(&["S", "T"]), None, out, 1, 2, None),
        names(&["C", "A", "B", "D", "E"])
    );
    assert_eq!(
        g.traverse_recursive(&names(&["S", "T"]), None, out, 2, 2, None),
        names(&["D", "E"])
    );
}

#[test]
fn reach_ids_by_index() {
    let g = chain();
    assert_eq!(g.reach_ids(&[0], None, Direction::Outgoing, 2, 3, None), vec![2, 3]);
    assert_eq!(g.reach_ids(&[0, 2], Some(0), Direction::Outgoing, 1, 1, None), vec![1, 3]);
    assert_eq!(g.reach_ids(&[77], None, Direction::Outgoing, 1, 3, None), Vec::<u32>::new());
    assert_eq!(g.reach_ids(&[0], Some(9), Direction::Outgoing, 1, 3, None), Vec::<u32>::new());
}
