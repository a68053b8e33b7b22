use tolerant_paths::{PathError, Tolerance, UnEdge, UnGraph, UnPath};

fn diamond() -> UnGraph {
    UnGraph::new(vec![
        UnEdge::new((1, 2), 1),
        UnEdge::new((1, 3), 1),
        UnEdge::new((2, 4), 1),
        UnEdge::new((3, 4), 2),
    ])
}

fn two_triangles() -> UnGraph {
    UnGraph::from_tuples(vec![
        (1, 2, 1),
        (2, 3, 1),
        (3, 1, 1),
        (4, 5, 1),
        (5, 6, 1),
        (6, 4, 1),
    ])
}

fn nodes_of(paths: &[UnPath]) -> Vec<Vec<i32>> {
    paths.iter().map(|p| p.nodes().clone()).collect()
}

fn lengths_of(paths: &[UnPath], g: &UnGraph) -> Vec<u128> {
    paths.iter().map(|p| p.length(g).unwrap()).collect()
}

fn factor(num: u32, den: u32) -> Tolerance {
    Tolerance::new(num, den).unwrap()
}

#[test]
fn tolerance_one_gives_the_shortest_path_only() {
    let g = diamond();
    let found = g.compute_shortest_paths(1, 4, factor(1, 1), 100).unwrap();
    assert_eq!(nodes_of(&found), vec![vec![1, 2, 4]]);
    assert_eq!(found[0].length(&g), Ok(2));
}

#[test]
fn tolerance_two_gives_both_paths_in_order() {
    let g = diamond();
    let found = g.compute_shortest_paths(1, 4, factor(2, 1), 100).unwrap();
    let all = nodes_of(&found);
    assert_eq!(all[0], vec![1, 2, 4]);
    assert_eq!(found[0].length(&g), Ok(2));
    assert_eq!(all[1], vec![1, 3, 4]);
    assert_eq!(found[1].length(&g), Ok(3));
    for p in &found {
        assert!(p.length(&g).unwrap() <= 4);
    }
}

#[test]
fn tolerance_two_admits_the_walks_of_length_four() {
    let g = diamond();
    let found = g.compute_shortest_paths(1, 4, factor(2, 1), 100).unwrap();
    assert_eq!(
        nodes_of(&found),
        vec![
            vec![1, 2, 4],
            vec![1, 3, 4],
            vec![1, 2, 1, 2, 4],
            vec![1, 2, 4, 2, 4],
            vec![1, 3, 1, 2, 4],
        ]
    );
    assert_eq!(lengths_of(&found, &g), vec![2, 3, 4, 4, 4]);
}

#[test]
fn tolerance_below_one_gives_nothing() {
    let g = diamond();
    let found = g.compute_shortest_paths(1, 4, factor(1, 2), 100).unwrap();
    assert!(found.is_empty());
}

#[test]
fn tolerance_below_one_gives_nothing_whatever_is_asked() {
    let below = [
        factor(0, 1),
        factor(1, 2),
        factor(999, 1000),
        factor(4_294_967_294, 4_294_967_295),
    ];
    for g in [diamond(), two_triangles(), UnGraph::new(vec![])] {
        for tol in below {
            for (start, end) in [(1, 4), (4, 1), (1, 1), (7, 8)] {
                for rounds in [0, 1, 100] {
                    let found = g.compute_shortest_paths(start, end, tol, rounds).unwrap();
                    assert!(found.is_empty());
                }
            }
        }
    }
}

#[test]
fn a_fraction_between_one_and_two_cuts_at_its_floor() {
    // Three halves of the shortest length 2 is 3: the path of length 3 stays,
    // the walks of length 4 do not.
    let g = diamond();
    let found = g.compute_shortest_paths(1, 4, factor(3, 2), 100).unwrap();
    assert_eq!(nodes_of(&found), vec![vec![1, 2, 4], vec![1, 3, 4]]);
    // Five quarters of 2 is two and a half: only length 2 is within it.
    let found = g.compute_shortest_paths(1, 4, factor(5, 4), 100).unwrap();
    assert_eq!(nodes_of(&found), vec![vec![1, 2, 4]]);
}

#[test]
fn results_are_in_order_and_within_the_tolerance_of_the_shortest() {
    let g = UnGraph::from_tuples(vec![
        (1, 2, 3),
        (2, 3, 4),
        (1, 3, 9),
        (3, 4, 2),
        (2, 4, 7),
        (4, 5, 1),
        (1, 5, 20),
    ]);
    for (num, den) in [(1, 1), (3, 2), (2, 1), (5, 2), (3, 1)] {
        let found = g.compute_shortest_paths(1, 5, factor(num, den), 1000).unwrap();
        let lengths = lengths_of(&found, &g);
        assert!(!lengths.is_empty());
        assert_eq!(lengths[0], 10);
        for pair in lengths.windows(2) {
            assert!(pair[0] <= pair[1]);
        }
        let least = *lengths.iter().min().unwrap();
        for l in &lengths {
            assert!(l * (den as u128) <= least * (num as u128));
        }
        for p in &found {
            assert_eq!(p.nodes()[0], 1);
            assert_eq!(*p.nodes().last().unwrap(), 5);
        }
    }
}

#[test]
fn a_path_with_more_steps_can_come_first() {
    // The direct edge is found in the first round, the shorter way round in
    // the second: the order of the result is by length, not by discovery.
    let g = UnGraph::from_tuples(vec![(1, 2, 10), (1, 3, 2), (3, 2, 3)]);
    let found = g.compute_shortest_paths(1, 2, factor(2, 1), 100).unwrap();
    assert_eq!(
        nodes_of(&found),
        vec![vec![1, 3, 2], vec![1, 3, 1, 3, 2], vec![1, 2]]
    );
    assert_eq!(lengths_of(&found, &g), vec![5, 9, 10]);
}

#[test]
fn a_search_from_a_node_to_itself_goes_out_and_back() {
    let g = diamond();
    let found = g.compute_shortest_paths(1, 1, factor(1, 1), 100).unwrap();
    assert_eq!(nodes_of(&found), vec![vec![1, 2, 1], vec![1, 3, 1]]);
}

#[test]
fn unconnected_nodes_give_nothing_in_a_graph_with_few_edges() {
    // Two separate edges: 2 edges, 4 nodes.
    let g = UnGraph::from_tuples(vec![(1, 2, 1), (3, 4, 1)]);
    let found = g.compute_shortest_paths(1, 4, factor(2, 1), 5).unwrap();
    assert!(found.is_empty());
    let found = g.compute_shortest_paths(1, 4, factor(2, 1), usize::MAX).unwrap();
    assert!(found.is_empty());
}

#[test]
fn unconnected_nodes_need_more_rounds_than_nodes() {
    let g = UnGraph::from_tuples(vec![(1, 2, 1), (3, 4, 1)]);
    assert_eq!(g.node_count(), 4);
    assert!(matches!(
        g.compute_shortest_paths(1, 4, factor(2, 1), 4),
        Err(PathError::RoundLimit)
    ));
}

#[test]
fn unconnected_nodes_in_a_graph_with_cycles_use_up_the_rounds() {
    let g = two_triangles();
    for rounds in [0, 1, 5, 12] {
        assert!(matches!(
            g.compute_shortest_paths(1, 4, factor(2, 1), rounds),
            Err(PathError::RoundLimit)
        ));
    }
}

#[test]
fn too_few_rounds_is_an_error() {
    let g = diamond();
    assert!(matches!(
        g.compute_shortest_paths(1, 4, factor(1, 1), 2),
        Err(PathError::RoundLimit)
    ));
    assert!(g.compute_shortest_paths(1, 4, factor(1, 1), 3).is_ok());
}

#[test]
fn unknown_start_is_an_error() {
    let g = diamond();
    assert!(matches!(
        g.compute_shortest_paths(9, 4, factor(1, 1), 100),
        Err(PathError::UnknownNode(9))
    ));
}

#[test]
fn unknown_end_is_an_error() {
    let g = diamond();
    assert!(matches!(
        g.compute_shortest_paths(1, 8, factor(1, 1), 100),
        Err(PathError::UnknownNode(8))
    ));
    assert!(matches!(
        g.compute_shortest_paths(7, 8, factor(1, 1), 100),
        Err(PathError::UnknownNode(7))
    ));
}

#[test]
fn an_empty_graph_knows_no_node() {
    let g = UnGraph::new(vec![]);
    assert!(matches!(
        g.compute_shortest_paths(1, 1, factor(1, 1), 100),
        Err(PathError::UnknownNode(1))
    ));
}

#[test]
fn the_same_search_twice_gives_the_same() {
    let g = diamond();
    for (num, den) in [(1, 1), (2, 1), (3, 1)] {
        let first = g.compute_shortest_paths(1, 4, factor(num, den), 100).unwrap();
        let second = g.compute_shortest_paths(1, 4, factor(num, den), 100).unwrap();
        assert_eq!(nodes_of(&first), nodes_of(&second));
    }
}

#[test]
fn a_loop_edge_may_be_walked() {
    let g = UnGraph::from_tuples(vec![(1, 1, 1), (1, 2, 2)]);
    let found = g.compute_shortest_paths(1, 2, factor(3, 2), 100).unwrap();
    assert_eq!(nodes_of(&found), vec![vec![1, 2], vec![1, 1, 2]]);
    assert_eq!(lengths_of(&found, &g), vec![2, 3]);
}

#[test]
fn of_two_edges_between_the_same_nodes_the_later_counts() {
    let g = UnGraph::from_tuples(vec![(1, 2, 5), (2, 1, 3)]);
    let found = g.compute_shortest_paths(1, 2, factor(1, 1), 100).unwrap();
    assert_eq!(nodes_of(&found), vec![vec![1, 2]]);
    assert_eq!(lengths_of(&found, &g), vec![3]);
}
