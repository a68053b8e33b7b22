//! Paths: sequences of nodes, their length in a graph, and their extension
//! by one step.

use crate::edge::UnEdge;
use crate::error::PathError;
use crate::graph::UnGraph;
use crate::model::{
    is_node, lemma_neighbor_has_length, lemma_neighbors_iff_node, length_of, neighbors_of,
};
use itertools::Itertools;
use vstd::prelude::*;

verus! {

/// The pairs of nodes that follow each other in `nodes`, in order.
pub open spec fn pairs_of(nodes: Seq<i32>) -> Seq<(i32, i32)> {
    if nodes.len() < 2 {
        Seq::empty()
    } else {
        Seq::new((nodes.len() - 1) as nat, |i: int| (nodes[i], nodes[i + 1]))
    }
}

/// The length of one step: the length recorded between the two nodes, and
/// nothing where none is recorded.
pub open spec fn step_length(edges: Seq<UnEdge>, u: i32, v: i32) -> nat {
    match length_of(edges, u, v) {
        Some(w) => w as nat,
        None => 0,
    }
}

/// The length of a path: the sum of the lengths of its steps.
pub open spec fn path_length(edges: Seq<UnEdge>, nodes: Seq<i32>) -> nat
    decreases nodes.len(),
{
    if nodes.len() < 2 {
        0
    } else {
        path_length(edges, nodes.drop_last()) + step_length(
            edges,
            nodes[nodes.len() - 2],
            nodes.last(),
        )
    }
}

/// The first step of a path that no edge of the graph makes, if there is one.
pub open spec fn missing_edge(edges: Seq<UnEdge>, nodes: Seq<i32>) -> Option<(i32, i32)>
    decreases nodes.len(),
{
    if nodes.len() < 2 {
        None
    } else {
        match missing_edge(edges, nodes.drop_last()) {
            Some(pair) => Some(pair),
            None => if length_of(edges, nodes[nodes.len() - 2], nodes.last()) is None {
                Some((nodes[nodes.len() - 2], nodes.last()))
            } else {
                None
            },
        }
    }
}

/// A walk of the graph: at least one node, and an edge for every step.
pub open spec fn is_walk(edges: Seq<UnEdge>, nodes: Seq<i32>) -> bool {
    nodes.len() >= 1 && missing_edge(edges, nodes) is None
}

/// Whether a path is short enough for a limit; without a limit every path is.
pub open spec fn within(edges: Seq<UnEdge>, nodes: Seq<i32>, limit: Option<nat>) -> bool {
    match limit {
        None => true,
        Some(bound) => path_length(edges, nodes) <= bound,
    }
}

/// A limit as a number without bounds.
pub open spec fn as_bound(limit: Option<u128>) -> Option<nat> {
    match limit {
        None => None,
        Some(bound) => Some(bound as nat),
    }
}

/// The step from `nodes` to a further node, as a function of that node.
pub open spec fn extend_by(nodes: Seq<i32>) -> spec_fn(i32) -> Seq<i32> {
    |n: i32| nodes.push(n)
}

/// The test that `explore` makes of a further node: the path extended by it
/// is within the limit.
pub open spec fn keeps(edges: Seq<UnEdge>, nodes: Seq<i32>, limit: Option<nat>) -> spec_fn(
    i32,
) -> bool {
    |n: i32| within(edges, nodes.push(n), limit)
}

/// The one-step extensions of a path that are within the limit: one for each
/// neighbour of its last node, in the order of the neighbours.
pub open spec fn extensions(edges: Seq<UnEdge>, nodes: Seq<i32>, limit: Option<nat>) -> Seq<
    Seq<i32>,
> {
    neighbors_of(edges, nodes.last()).filter(keeps(edges, nodes, limit)).map_values(
        extend_by(nodes),
    )
}

/// What exploring a path gives: its extensions, or the reason why they cannot
/// be had. The last node must be a node of the graph; and where there is a
/// limit, lengths are measured, so every step of the path must have an edge.
pub open spec fn explored(edges: Seq<UnEdge>, nodes: Seq<i32>, limit: Option<nat>) -> Result<
    Seq<Seq<i32>>,
    PathError,
> {
    if !is_node(edges, nodes.last()) {
        Err(PathError::UnknownNode(nodes.last()))
    } else if limit is Some && missing_edge(edges, nodes) is Some {
        let pair = missing_edge(edges, nodes)->0;
        Err(PathError::EdgeNotFound(pair.0, pair.1))
    } else {
        Ok(extensions(edges, nodes, limit))
    }
}

/// The node sequences of a list of paths.
pub open spec fn views(paths: Seq<UnPath>) -> Seq<Seq<i32>> {
    paths.map_values(|p: UnPath| p@)
}

/// What a result of `explore` says, with node sequences for the paths.
pub open spec fn outcome_view(r: Result<Vec<UnPath>, PathError>) -> Result<
    Seq<Seq<i32>>,
    PathError,
> {
    match r {
        Ok(paths) => Ok(views(paths@)),
        Err(e) => Err(e),
    }
}

/// A step that is missing in the first nodes of a path is the first missing
/// step of the whole path.
pub proof fn lemma_missing_edge_prefix(edges: Seq<UnEdge>, nodes: Seq<i32>, k: int)
    requires
        0 <= k <= nodes.len(),
        missing_edge(edges, nodes.take(k)) is Some,
    ensures
        missing_edge(edges, nodes) == missing_edge(edges, nodes.take(k)),
    decreases nodes.len(),
{
    if k == nodes.len() {
        assert(nodes.take(k) =~= nodes);
    } else {
        assert(nodes.drop_last().take(k) =~= nodes.take(k));
        lemma_missing_edge_prefix(edges, nodes.drop_last(), k);
    }
}

/// The first nodes of a path without a missing step have none either.
pub proof fn lemma_walk_prefix(edges: Seq<UnEdge>, nodes: Seq<i32>, k: int)
    requires
        0 <= k <= nodes.len(),
        missing_edge(edges, nodes) is None,
    ensures
        missing_edge(edges, nodes.take(k)) is None,
{
    if missing_edge(edges, nodes.take(k)) is Some {
        lemma_missing_edge_prefix(edges, nodes, k);
    }
}

/// The first nodes of a path are no longer than the path.
pub proof fn lemma_path_length_prefix(edges: Seq<UnEdge>, nodes: Seq<i32>, k: int)
    requires
        0 <= k <= nodes.len(),
    ensures
        path_length(edges, nodes.take(k)) <= path_length(edges, nodes),
    decreases nodes.len(),
{
    if k == nodes.len() {
        assert(nodes.take(k) =~= nodes);
    } else {
        assert(nodes.drop_last().take(k) =~= nodes.take(k));
        lemma_path_length_prefix(edges, nodes.drop_last(), k);
    }
}

/// A path is no longer than its steps allow: each counts for at most the
/// largest length an edge can have.
pub proof fn lemma_path_length_bound(edges: Seq<UnEdge>, nodes: Seq<i32>)
    ensures
        path_length(edges, nodes) <= nodes.len() * 0xFFFF_FFFF,
    decreases nodes.len(),
{
    if nodes.len() >= 2 {
        lemma_path_length_bound(edges, nodes.drop_last());
    }
}

/// A path: one node or more, in the order in which they are visited.
#[derive(Debug)]
pub struct UnPath {
    nodes: Vec<i32>,
}

impl View for UnPath {
    type V = Seq<i32>;

    closed spec fn view(&self) -> Seq<i32> {
        self.nodes@
    }
}

impl Clone for UnPath {
    fn clone(&self) -> (copy: Self)
        ensures
            copy@ == self@,
    {
        proof {
            use_type_invariant(self);
        }
        let nodes = self.nodes.clone();
        assert(nodes@ =~= self.nodes@);
        UnPath { nodes }
    }
}

impl UnPath {
    #[verifier::type_invariant]
    spec fn has_a_node(self) -> bool {
        self.nodes@.len() >= 1
    }

    /// The path that stays at `start`.
    pub fn new(start: i32) -> (p: UnPath)
        ensures
            p@ == seq![start],
    {
        let mut nodes: Vec<i32> = Vec::new();
        nodes.push(start);
        assert(nodes@ =~= seq![start]);
        UnPath { nodes }
    }

    /// The path through the given nodes; `None` where there are none.
    pub fn from_nodes(nodes: Vec<i32>) -> (p: Option<UnPath>)
        ensures
            p is Some <==> nodes@.len() > 0,
            p is Some ==> p->0@ == nodes@,
    {
        if nodes.len() == 0 {
            None
        } else {
            Some(UnPath { nodes })
        }
    }

    /// The nodes of the path.
    pub fn nodes(&self) -> (nodes: &Vec<i32>)
        ensures
            nodes@ == self@,
            nodes@.len() >= 1,
    {
        proof {
            use_type_invariant(self);
        }
        &self.nodes
    }

    /// The node at which the path ends.
    pub fn last_node(&self) -> (n: i32)
        ensures
            self@.len() >= 1,
            n == self@.last(),
    {
        proof {
            use_type_invariant(self);
        }
        self.nodes[self.nodes.len() - 1]
    }

    /// This path with one more node at its end. Nothing is asked of the node:
    /// whether an edge leads there is for the caller to know.
    pub fn add(&self, node: i32) -> (longer: UnPath)
        ensures
            longer@ == self@.push(node),
    {
        let mut nodes = self.nodes.clone();
        assert(nodes@ =~= self.nodes@);
        nodes.push(node);
        UnPath { nodes }
    }

    /// The steps of the path. This is `Itertools::tuple_windows` over the
    /// nodes, taken two by two: each node with the one that follows it, in
    /// order, and nothing for a path of one node.
    #[verifier::external_body]
    fn edges(&self) -> (pairs: Vec<(i32, i32)>)
        ensures
            pairs@ == pairs_of(self@),
    {
        self.nodes.iter().copied().tuple_windows::<(_, _)>().collect()
    }

    /// The length of the path in `graph`, or the first of its steps that no
    /// edge makes.
    pub fn length(&self, graph: &UnGraph) -> (r: Result<u128, PathError>)
        ensures
            match missing_edge(graph@, self@) {
                Some(pair) => r == Err::<u128, PathError>(
                    PathError::EdgeNotFound(pair.0, pair.1),
                ),
                None => r == Ok::<u128, PathError>(path_length(graph@, self@) as u128),
            },
            path_length(graph@, self@) < 0x1_0000_0000_0000_0000_0000_0000,
    {
        proof {
            use_type_invariant(self);
            lemma_path_length_bound(graph@, self@);
            assert(self@.len() == self.nodes.len() <= usize::MAX);
        }
        let pairs = self.edges();
        let mut sum: u128 = 0;
        let mut i: usize = 0;
        while i < pairs.len()
            invariant
                self@.len() >= 1,
                pairs@ == pairs_of(self@),
                i <= pairs.len(),
                missing_edge(graph@, self@.take(i + 1)) is None,
                sum == path_length(graph@, self@.take(i + 1)),
                sum <= (i + 1) * 0xFFFF_FFFF,
                path_length(graph@, self@) < 0x1_0000_0000_0000_0000_0000_0000,
            decreases pairs.len() - i,
        {
            let pair = pairs[i];
            proof {
                assert(self@.take(i + 2).drop_last() =~= self@.take(i + 1));
                assert(pair == (self@[i as int], self@[i + 1]));
            }
            match graph.length_between(pair.0, pair.1) {
                None => {
                    proof {
                        lemma_missing_edge_prefix(graph@, self@, i + 2);
                    }
                    return Err(PathError::EdgeNotFound(pair.0, pair.1));
                },
                Some(w) => {
                    sum = sum + w as u128;
                },
            }
            i += 1;
        }
        proof {
            assert(self@.take(i + 1) =~= self@);
        }
        Ok(sum)
    }

    /// All paths that are one step longer than this one and within the limit,
    /// one for each neighbour of the last node.
    pub fn explore(&self, graph: &UnGraph, length_limit: Option<u128>) -> (r: Result<
        Vec<UnPath>,
        PathError,
    >)
        ensures
            outcome_view(r) == explored(graph@, self@, as_bound(length_limit)),
    {
        let end_node = self.last_node();
        let neighbors = match graph.neighbors(end_node) {
            None => {
                return Err(PathError::UnknownNode(end_node));
            },
            Some(list) => list,
        };
        let mut new_paths: Vec<UnPath> = Vec::new();
        let mut i: usize = 0;
        proof {
            lemma_neighbors_iff_node(graph@, end_node);
            assert(neighbors@.take(0) =~= Seq::<i32>::empty());
            assert(views(new_paths@) =~= Seq::<Seq<i32>>::empty());
            let test = keeps(graph@, self@, as_bound(length_limit));
            assert(neighbors@.take(0).filter(test) =~= Seq::<i32>::empty()) by {
                reveal(Seq::filter);
            }
        }
        while i < neighbors.len()
            invariant
                self@.len() >= 1,
                end_node == self@.last(),
                is_node(graph@, end_node),
                neighbors@ == neighbors_of(graph@, end_node),
                neighbors@.len() > 0,
                i <= neighbors.len(),
                views(new_paths@) == neighbors@.take(i as int).filter(
                    keeps(graph@, self@, as_bound(length_limit)),
                ).map_values(extend_by(self@)),
                (i > 0 && length_limit is Some) ==> missing_edge(graph@, self@) is None,
            decreases neighbors.len() - i,
        {
            let next_node = neighbors[i];
            let new_path = self.add(next_node);
            let ghost before = new_paths@;
            let ghost seen = neighbors@.take(i as int);
            let ghost test = keeps(graph@, self@, as_bound(length_limit));
            proof {
                neighbors@.lemma_take_succ_push(i as int);
                seen.lemma_filter_push(next_node, test);
                seen.filter(test).lemma_push_map_commute(extend_by(self@), next_node);
                assert(new_path@.drop_last() =~= self@);
                assert(neighbors@.contains(next_node));
                lemma_neighbor_has_length(graph@, end_node, next_node);
            }
            let keep = match length_limit {
                None => true,
                Some(bound) => {
                    match new_path.length(graph) {
                        Err(e) => {
                            return Err(e);
                        },
                        Ok(l) => l <= bound,
                    }
                },
            };
            assert(keep == test(next_node));
            if keep {
                new_paths.push(new_path);
                assert(views(new_paths@) =~= views(before).push(new_path@));
            }
            i += 1;
        }
        proof {
            assert(neighbors@.take(i as int) =~= neighbors@);
        }
        Ok(new_paths)
    }
}

} // verus!
