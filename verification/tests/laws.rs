use std::collections::HashSet;
use tolerant_paths::{PathError, Tolerance, UnGraph, UnPath};

fn nodes_of(paths: &[UnPath]) -> Vec<Vec<i32>> {
    paths.iter().map(|p| p.nodes().clone()).collect()
}

/// The length of the step from `from` to `to`: that of the later of the
/// edges between the two.
fn step(triples: &[(i32, i32, u32)], from: i32, to: i32) -> Option<u128> {
    triples
        .iter()
        .rev()
        .find(|t| (t.0, t.1) == (from, to) || (t.0, t.1) == (to, from))
        .map(|t| t.2 as u128)
}

fn all_nodes(triples: &[(i32, i32, u32)]) -> Vec<i32> {
    let mut nodes: Vec<i32> = triples.iter().flat_map(|t| [t.0, t.1]).collect();
    nodes.sort();
    nodes.dedup();
    nodes
}

/// All walks from `start` of one step or more that are no longer than
/// `bound`, with their lengths, found by plain recursion. Every edge must be
/// one long at least, or there is no end to them.
fn walks_within(triples: &[(i32, i32, u32)], start: i32, bound: u128) -> Vec<(Vec<i32>, u128)> {
    let nodes = all_nodes(triples);
    let mut all = Vec::new();
    let mut layer = vec![(vec![start], 0u128)];
    while !layer.is_empty() {
        let mut next = Vec::new();
        for (walk, length) in &layer {
            for &to in &nodes {
                if let Some(w) = step(triples, *walk.last().unwrap(), to) {
                    if length + w <= bound {
                        let mut longer = walk.clone();
                        longer.push(to);
                        next.push((longer, length + w));
                    }
                }
            }
        }
        all.extend(next.iter().cloned());
        layer = next;
    }
    all
}

/// The least length of a walk of one step or more from `start` to `end`.
fn distance(triples: &[(i32, i32, u32)], start: i32, end: i32) -> Option<u128> {
    let total: u128 = triples.iter().map(|t| t.2 as u128).sum();
    walks_within(triples, start, total.min(12))
        .into_iter()
        .filter(|(walk, _)| *walk.last().unwrap() == end)
        .map(|(_, l)| l)
        .min()
}

/// The walks from `start` to `end` within the tolerance of the shortest.
fn expected(
    triples: &[(i32, i32, u32)],
    start: i32,
    end: i32,
    num: u32,
    den: u32,
) -> HashSet<Vec<i32>> {
    let least = distance(triples, start, end).unwrap();
    walks_within(triples, start, least * num as u128 / den as u128)
        .into_iter()
        .filter(|(walk, _)| *walk.last().unwrap() == end)
        .map(|(walk, _)| walk)
        .collect()
}

fn sample_graphs() -> Vec<Vec<(i32, i32, u32)>> {
    vec![
        vec![(1, 2, 1), (1, 3, 1), (2, 4, 1), (3, 4, 2)],
        vec![(1, 2, 3), (2, 3, 4), (1, 3, 9), (3, 4, 2), (2, 4, 7)],
        vec![(1, 2, 2), (2, 3, 2), (3, 4, 2), (4, 1, 2), (1, 3, 3)],
        vec![(1, 1, 1), (1, 2, 2), (2, 3, 1), (3, 4, 1)],
        vec![(1, 2, 5), (2, 1, 3), (2, 4, 1), (1, 4, 6), (3, 4, 2)],
    ]
}

#[test]
fn a_search_finds_the_walks_within_the_tolerance_and_no_others() {
    for triples in sample_graphs() {
        let g = UnGraph::from_tuples(triples.clone());
        for (num, den) in [(1, 1), (4, 3), (3, 2), (2, 1)] {
            for (start, end) in [(1, 4), (4, 1), (2, 3), (1, 1)] {
                let tol = Tolerance::new(num, den).unwrap();
                let found = g.compute_shortest_paths(start, end, tol, 1000).unwrap();
                let got: HashSet<Vec<i32>> = nodes_of(&found).into_iter().collect();
                let want = expected(&triples, start, end, num, den);
                assert!(!want.is_empty());
                assert_eq!(got, want);
                assert_eq!(got.len(), found.len());
            }
        }
    }
}

#[test]
fn no_path_is_returned_twice() {
    for triples in sample_graphs() {
        let g = UnGraph::from_tuples(triples);
        let tol = Tolerance::new(5, 2).unwrap();
        let found = nodes_of(&g.compute_shortest_paths(1, 4, tol, 1000).unwrap());
        let distinct: HashSet<&Vec<i32>> = found.iter().collect();
        assert_eq!(distinct.len(), found.len());
    }
}

#[test]
fn every_path_returned_is_a_walk_between_the_two_nodes() {
    for triples in sample_graphs() {
        let g = UnGraph::from_tuples(triples);
        let tol = Tolerance::new(2, 1).unwrap();
        for p in g.compute_shortest_paths(2, 4, tol, 1000).unwrap() {
            let nodes = p.nodes();
            assert_eq!(nodes[0], 2);
            assert_eq!(*nodes.last().unwrap(), 4);
            assert!(nodes.len() >= 2);
            for step in nodes.windows(2) {
                assert!(g.length_between(step[0], step[1]).is_some());
            }
        }
    }
}

#[test]
fn more_rounds_than_the_tolerance_allows_beside_a_walk_are_enough() {
    // The walk 1, 2, 4 has length 2.
    let g = UnGraph::from_tuples(vec![(1, 2, 1), (1, 3, 1), (2, 4, 1), (3, 4, 2)]);
    for (num, den, limit) in [(1, 1, 2usize), (3, 2, 3), (2, 1, 4), (7, 2, 7)] {
        let tol = Tolerance::new(num, den).unwrap();
        assert_eq!(tol.limit(2), limit as u128);
        assert!(g.compute_shortest_paths(1, 4, tol, limit + 1).is_ok());
        assert!(matches!(
            g.compute_shortest_paths(1, 4, tol, limit),
            Err(PathError::RoundLimit)
        ));
    }
}

#[test]
fn a_round_trip_of_no_length_keeps_a_search_going() {
    let g = UnGraph::from_tuples(vec![(1, 2, 0), (2, 3, 1)]);
    let tol = Tolerance::new(1, 1).unwrap();
    for rounds in [1, 5, 20] {
        assert!(matches!(
            g.compute_shortest_paths(1, 3, tol, rounds),
            Err(PathError::RoundLimit)
        ));
    }
}

#[test]
fn giving_up_misses_no_path() {
    // A chain: fewer edges than nodes, and the far end is as many steps
    // away as a node can be.
    let chain = vec![(1, 2, 1), (2, 3, 1), (3, 4, 1), (4, 5, 1), (5, 6, 1)];
    let g = UnGraph::from_tuples(chain);
    let tol = Tolerance::new(1, 1).unwrap();
    let found = g.compute_shortest_paths(1, 6, tol, 100).unwrap();
    assert_eq!(nodes_of(&found), vec![vec![1, 2, 3, 4, 5, 6]]);
    let back = g.compute_shortest_paths(6, 1, tol, 100).unwrap();
    assert_eq!(nodes_of(&back), vec![vec![6, 5, 4, 3, 2, 1]]);
}
