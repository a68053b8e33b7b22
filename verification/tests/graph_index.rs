use std::collections::HashSet;
use tolerant_paths::{UnEdge, UnGraph};

#[test]
fn an_edge_knows_its_other_end() {
    let e = UnEdge::new((3, 7), 12);
    assert_eq!(e.end_nodes, (3, 7));
    assert_eq!(e.length, 12);
    assert_eq!(e.other_end(3), 7);
    assert_eq!(e.other_end(7), 3);
    let around = UnEdge::new((5, 5), 1);
    assert_eq!(around.other_end(5), 5);
}

#[test]
fn edges_are_adjacent_when_they_share_a_node() {
    let e = UnEdge::new((1, 2), 1);
    assert!(e.is_adjacent(UnEdge::new((2, 3), 1)));
    assert!(e.is_adjacent(UnEdge::new((3, 1), 1)));
    assert!(e.is_adjacent(UnEdge::new((1, 2), 9)));
    assert!(e.is_adjacent(UnEdge::new((2, 1), 9)));
    assert!(!e.is_adjacent(UnEdge::new((3, 4), 1)));
}

#[test]
fn lengths_are_recorded_in_both_directions() {
    let g = UnGraph::from_tuples(vec![(1, 2, 10), (2, 3, 20)]);
    assert_eq!(g.length_between(1, 2), Some(10));
    assert_eq!(g.length_between(2, 1), Some(10));
    assert_eq!(g.length_between(3, 2), Some(20));
    assert_eq!(g.length_between(1, 3), None);
    assert_eq!(g.length_between(1, 1), None);
    assert_eq!(g.length_between(8, 9), None);
}

#[test]
fn lengths_of_nodes_at_the_ends_of_the_range_are_kept_apart() {
    let g = UnGraph::from_tuples(vec![
        (i32::MIN, i32::MAX, 1),
        (i32::MIN, -1, 2),
        (0, i32::MAX, 3),
        (-1, 0, 4),
    ]);
    assert_eq!(g.length_between(i32::MAX, i32::MIN), Some(1));
    assert_eq!(g.length_between(-1, i32::MIN), Some(2));
    assert_eq!(g.length_between(i32::MAX, 0), Some(3));
    assert_eq!(g.length_between(0, -1), Some(4));
    assert_eq!(g.length_between(i32::MIN, 0), None);
    assert_eq!(g.length_between(-1, i32::MAX), None);
    assert_eq!(g.length_between(i32::MIN, i32::MIN), None);
}

#[test]
fn the_later_edge_gives_the_length() {
    let g = UnGraph::from_tuples(vec![(1, 2, 5), (2, 1, 3), (1, 3, 4)]);
    assert_eq!(g.length_between(1, 2), Some(3));
    assert_eq!(g.length_between(2, 1), Some(3));
    assert_eq!(g.edge_count(), 3);
    assert_eq!(g.node_count(), 3);
    assert_eq!(g.neighbors(1), Some(&vec![2, 3]));
}

#[test]
fn neighbours_are_listed_once_in_the_order_of_the_edges() {
    let g = UnGraph::from_tuples(vec![(1, 2, 1), (3, 1, 1), (1, 2, 2), (4, 1, 1), (2, 3, 1)]);
    assert_eq!(g.neighbors(1), Some(&vec![2, 3, 4]));
    assert_eq!(g.neighbors(2), Some(&vec![1, 3]));
    assert_eq!(g.neighbors(3), Some(&vec![1, 2]));
    assert_eq!(g.neighbors(4), Some(&vec![1]));
    assert_eq!(g.neighbors(5), None);
}

#[test]
fn a_loop_makes_a_node_its_own_neighbour() {
    let g = UnGraph::from_tuples(vec![(1, 1, 7), (1, 2, 1)]);
    assert_eq!(g.neighbors(1), Some(&vec![1, 2]));
    assert_eq!(g.length_between(1, 1), Some(7));
    assert_eq!(g.node_count(), 2);
}

#[test]
fn the_nodes_are_the_end_nodes_of_the_edges() {
    let g = UnGraph::from_tuples(vec![(1, 2, 1), (2, 4, 1), (1, 3, 1), (3, 4, 2)]);
    assert_eq!(g.get_nodes(), HashSet::from([1, 2, 3, 4]));
    assert_eq!(g.node_count(), 4);
    assert_eq!(g.edge_count(), 4);
    assert!(g.has_node(4));
    assert!(!g.has_node(0));
}

#[test]
fn an_empty_graph_has_nothing() {
    let g = UnGraph::new(vec![]);
    assert!(g.get_nodes().is_empty());
    assert_eq!(g.node_count(), 0);
    assert_eq!(g.edge_count(), 0);
    assert_eq!(g.neighbors(1), None);
    assert_eq!(g.length_between(1, 2), None);
    assert!(g.edges().is_empty());
}

#[test]
fn triples_and_edges_build_the_same_graph() {
    let from_edges = UnGraph::new(vec![
        UnEdge::new((1, 2), 1),
        UnEdge::new((2, 4), 1),
        UnEdge::new((1, 3), 1),
        UnEdge::new((3, 4), 2),
    ]);
    let from_triples = UnGraph::from_tuples(vec![(1, 2, 1), (2, 4, 1), (1, 3, 1), (3, 4, 2)]);
    assert_eq!(from_edges.edges().len(), from_triples.edges().len());
    for (a, b) in from_edges.edges().iter().zip(from_triples.edges().iter()) {
        assert_eq!(a.end_nodes, b.end_nodes);
        assert_eq!(a.length, b.length);
    }
    for n in 0..6 {
        assert_eq!(from_edges.neighbors(n), from_triples.neighbors(n));
    }
}
