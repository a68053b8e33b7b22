use tolerant_paths::ranking::rank;
use tolerant_paths::{PathError, Tolerance, UnGraph, UnPath};

fn diamond() -> UnGraph {
    UnGraph::from_tuples(vec![(1, 2, 1), (1, 3, 1), (2, 4, 1), (3, 4, 2)])
}

fn path(nodes: &[i32]) -> UnPath {
    UnPath::from_nodes(nodes.to_vec()).unwrap()
}

fn nodes_of(paths: &[UnPath]) -> Vec<Vec<i32>> {
    paths.iter().map(|p| p.nodes().clone()).collect()
}

#[test]
fn a_path_has_at_least_one_node() {
    assert!(UnPath::from_nodes(vec![]).is_none());
    let p = UnPath::new(5);
    assert_eq!(p.nodes(), &vec![5]);
    assert_eq!(p.last_node(), 5);
    assert_eq!(path(&[1, 2, 3]).last_node(), 3);
}

#[test]
fn adding_a_node_leaves_the_path_as_it_was() {
    let p = path(&[1, 2]);
    let q = p.add(4);
    let r = p.add(1);
    assert_eq!(p.nodes(), &vec![1, 2]);
    assert_eq!(q.nodes(), &vec![1, 2, 4]);
    assert_eq!(r.nodes(), &vec![1, 2, 1]);
    // No edge is asked for: any node can be added.
    assert_eq!(p.add(77).nodes(), &vec![1, 2, 77]);
    assert_eq!(p.clone().nodes(), p.nodes());
}

#[test]
fn the_length_is_the_sum_of_the_steps() {
    let g = diamond();
    assert_eq!(UnPath::new(1).length(&g), Ok(0));
    assert_eq!(UnPath::new(99).length(&g), Ok(0));
    assert_eq!(path(&[1, 2]).length(&g), Ok(1));
    assert_eq!(path(&[1, 2, 4]).length(&g), Ok(2));
    assert_eq!(path(&[1, 3, 4]).length(&g), Ok(3));
    assert_eq!(path(&[4, 3, 1]).length(&g), Ok(3));
    assert_eq!(path(&[1, 3, 4, 3, 4, 2, 1]).length(&g), Ok(9));
}

#[test]
fn the_length_of_long_edges_does_not_wrap() {
    let g = UnGraph::from_tuples(vec![(1, 2, u32::MAX)]);
    assert_eq!(path(&[1, 2, 1, 2, 1]).length(&g), Ok(4 * (u32::MAX as u128)));
}

#[test]
fn the_first_step_without_an_edge_is_reported() {
    let g = diamond();
    assert_eq!(path(&[1, 4]).length(&g), Err(PathError::EdgeNotFound(1, 4)));
    assert_eq!(path(&[1, 2, 3, 1, 4]).length(&g), Err(PathError::EdgeNotFound(2, 3)));
    assert_eq!(path(&[1, 2, 2]).length(&g), Err(PathError::EdgeNotFound(2, 2)));
    assert_eq!(path(&[1, 2, 9]).length(&g), Err(PathError::EdgeNotFound(2, 9)));
}

#[test]
fn exploring_without_a_limit_takes_every_neighbour() {
    let g = diamond();
    let next = UnPath::new(1).explore(&g, None).unwrap();
    assert_eq!(nodes_of(&next), vec![vec![1, 2], vec![1, 3]]);
    let next = path(&[1, 2, 4]).explore(&g, None).unwrap();
    assert_eq!(nodes_of(&next), vec![vec![1, 2, 4, 2], vec![1, 2, 4, 3]]);
    // Without a limit no length is measured, so a step without an edge in
    // the path does not matter.
    let next = path(&[9, 4]).explore(&g, None).unwrap();
    assert_eq!(nodes_of(&next), vec![vec![9, 4, 2], vec![9, 4, 3]]);
}

#[test]
fn exploring_with_a_limit_keeps_what_is_within_it() {
    let g = diamond();
    let p = path(&[1, 2, 4]);
    assert_eq!(
        nodes_of(&p.explore(&g, Some(4)).unwrap()),
        vec![vec![1, 2, 4, 2], vec![1, 2, 4, 3]]
    );
    assert_eq!(nodes_of(&p.explore(&g, Some(3)).unwrap()), vec![vec![1, 2, 4, 2]]);
    assert!(p.explore(&g, Some(2)).unwrap().is_empty());
    assert!(p.explore(&g, Some(0)).unwrap().is_empty());
}

#[test]
fn exploring_from_an_unknown_node_is_an_error() {
    let g = diamond();
    assert!(matches!(UnPath::new(9).explore(&g, None), Err(PathError::UnknownNode(9))));
    assert!(matches!(path(&[1, 2, 9]).explore(&g, Some(100)), Err(PathError::UnknownNode(9))));
}

#[test]
fn exploring_with_a_limit_needs_an_edge_for_every_step() {
    let g = diamond();
    assert!(matches!(
        path(&[1, 4, 2]).explore(&g, Some(100)),
        Err(PathError::EdgeNotFound(1, 4))
    ));
}

#[test]
fn ranking_sorts_by_length_and_keeps_the_order_of_equals() {
    let g = diamond();
    let tol = Tolerance::new(10, 1).unwrap();
    let given = vec![
        path(&[1, 3, 4]),
        path(&[1, 2, 1, 2, 4]),
        path(&[1, 2, 4]),
        path(&[1, 3, 1, 2, 4]),
        path(&[1, 2, 4, 2, 4]),
        path(&[4, 2, 1]),
    ];
    let ranked = rank(&given, &g, tol).unwrap();
    assert_eq!(
        nodes_of(&ranked),
        vec![
            vec![1, 2, 4],
            vec![4, 2, 1],
            vec![1, 3, 4],
            vec![1, 2, 1, 2, 4],
            vec![1, 3, 1, 2, 4],
            vec![1, 2, 4, 2, 4],
        ]
    );
    assert_eq!(given.len(), 6);
}

#[test]
fn ranking_drops_what_is_beyond_the_tolerance() {
    let g = diamond();
    let given = vec![path(&[1, 2, 1, 2, 4]), path(&[1, 3, 4]), path(&[1, 2, 4])];
    let exact = rank(&given, &g, Tolerance::new(1, 1).unwrap()).unwrap();
    assert_eq!(nodes_of(&exact), vec![vec![1, 2, 4]]);
    let half_more = rank(&given, &g, Tolerance::new(3, 2).unwrap()).unwrap();
    assert_eq!(nodes_of(&half_more), vec![vec![1, 2, 4], vec![1, 3, 4]]);
    let double = rank(&given, &g, Tolerance::new(2, 1).unwrap()).unwrap();
    assert_eq!(nodes_of(&double), vec![vec![1, 2, 4], vec![1, 3, 4], vec![1, 2, 1, 2, 4]]);
    let below = rank(&given, &g, Tolerance::new(1, 2).unwrap()).unwrap();
    assert!(below.is_empty());
}

#[test]
fn ranking_nothing_gives_nothing() {
    let g = diamond();
    assert!(rank(&vec![], &g, Tolerance::new(2, 1).unwrap()).unwrap().is_empty());
}

#[test]
fn ranking_reports_the_first_step_without_an_edge() {
    let g = diamond();
    let given = vec![path(&[1, 2, 4]), path(&[1, 2, 3]), path(&[4, 1])];
    assert!(matches!(
        rank(&given, &g, Tolerance::new(2, 1).unwrap()),
        Err(PathError::EdgeNotFound(2, 3))
    ));
}

#[test]
fn a_tolerance_needs_a_denominator() {
    assert!(Tolerance::new(1, 0).is_none());
    assert!(Tolerance::new(0, 0).is_none());
    assert!(Tolerance::new(0, 1).is_some());
    let t = Tolerance::new(3, 2).unwrap();
    assert_eq!(t.numerator(), 3);
    assert_eq!(t.denominator(), 2);
}

#[test]
fn a_tolerance_is_below_one_when_its_numerator_is_less() {
    assert!(Tolerance::new(1, 2).unwrap().is_below_one());
    assert!(Tolerance::new(0, 1).unwrap().is_below_one());
    assert!(!Tolerance::new(1, 1).unwrap().is_below_one());
    assert!(!Tolerance::new(7, 7).unwrap().is_below_one());
    assert!(!Tolerance::new(3, 2).unwrap().is_below_one());
}

#[test]
fn the_limit_is_the_product_rounded_down() {
    assert_eq!(Tolerance::new(1, 1).unwrap().limit(7), 7);
    assert_eq!(Tolerance::new(2, 1).unwrap().limit(7), 14);
    assert_eq!(Tolerance::new(3, 2).unwrap().limit(3), 4);
    assert_eq!(Tolerance::new(5, 4).unwrap().limit(2), 2);
    assert_eq!(Tolerance::new(1, 3).unwrap().limit(2), 0);
    assert_eq!(Tolerance::new(3, 2).unwrap().limit(0), 0);
    let greatest = (1u128 << 96) - 1;
    assert_eq!(
        Tolerance::new(u32::MAX, 1).unwrap().limit(greatest),
        greatest * (u32::MAX as u128)
    );
}
