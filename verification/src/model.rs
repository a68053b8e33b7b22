//! The mathematical reading of a graph: what an edge list says about the
//! length between two nodes and about the neighbours of a node.

use crate::edge::UnEdge;
use vstd::prelude::*;

verus! {

/// The length recorded between `u` and `v`: that of the last edge of the list
/// that joins them, in either direction, or `None` where no edge does.
pub open spec fn length_of(edges: Seq<UnEdge>, u: i32, v: i32) -> Option<u32>
    decreases edges.len(),
{
    if edges.len() == 0 {
        None
    } else if edges.last().joins(u, v) {
        Some(edges.last().length)
    } else {
        length_of(edges.drop_last(), u, v)
    }
}

/// `list` with `n` added at its end, unless it is there already.
pub open spec fn with_neighbor(list: Seq<i32>, n: i32) -> Seq<i32> {
    if list.contains(n) {
        list
    } else {
        list.push(n)
    }
}

/// The neighbours of `n`, each once, in the order in which the edge list
/// first names them.
pub open spec fn neighbors_of(edges: Seq<UnEdge>, n: i32) -> Seq<i32>
    decreases edges.len(),
{
    if edges.len() == 0 {
        Seq::empty()
    } else {
        let e = edges.last();
        let before = neighbors_of(edges.drop_last(), n);
        let first = if e.end_nodes.0 == n {
            with_neighbor(before, e.end_nodes.1)
        } else {
            before
        };
        if e.end_nodes.1 == n {
            with_neighbor(first, e.end_nodes.0)
        } else {
            first
        }
    }
}

/// `n` is an end node of some edge of the list.
pub open spec fn is_node(edges: Seq<UnEdge>, n: i32) -> bool {
    exists|i: int| 0 <= i < edges.len() && (#[trigger] edges[i]).touches(n)
}

/// The nodes of the graph: the end nodes of its edges.
pub open spec fn node_set(edges: Seq<UnEdge>) -> Set<i32> {
    Set::new(|n: i32| is_node(edges, n))
}

/// A node has neighbours exactly when it is a node of the graph.
pub proof fn lemma_neighbors_iff_node(edges: Seq<UnEdge>, n: i32)
    ensures
        neighbors_of(edges, n).len() > 0 <==> is_node(edges, n),
    decreases edges.len(),
{
    if edges.len() > 0 {
        let rest = edges.drop_last();
        lemma_neighbors_iff_node(rest, n);
        if is_node(rest, n) {
            let i = choose|i: int| 0 <= i < rest.len() && (#[trigger] rest[i]).touches(n);
            assert(edges[i].touches(n));
        }
        if is_node(edges, n) && !edges.last().touches(n) {
            let i = choose|i: int| 0 <= i < edges.len() && (#[trigger] edges[i]).touches(n);
            assert(rest[i].touches(n));
        }
        if edges.last().touches(n) {
            assert(edges[edges.len() - 1].touches(n));
        }
    }
}

/// The neighbour relation is symmetric.
pub proof fn lemma_neighbors_symmetric(edges: Seq<UnEdge>, n: i32, m: i32)
    ensures
        neighbors_of(edges, n).contains(m) <==> neighbors_of(edges, m).contains(n),
    decreases edges.len(),
{
    if edges.len() > 0 {
        let rest = edges.drop_last();
        lemma_neighbors_symmetric(rest, n, m);
        lemma_neighbors_joined(edges, n, m);
        lemma_neighbors_joined(edges, m, n);
    }
}

/// `m` is a neighbour of `n` exactly when some edge joins the two.
pub proof fn lemma_neighbors_joined(edges: Seq<UnEdge>, n: i32, m: i32)
    ensures
        neighbors_of(edges, n).contains(m) <==> exists|i: int|
            0 <= i < edges.len() && (#[trigger] edges[i]).joins(n, m),
    decreases edges.len(),
{
    if edges.len() > 0 {
        let rest = edges.drop_last();
        let e = edges.last();
        lemma_neighbors_joined(rest, n, m);
        let before = neighbors_of(rest, n);
        let first = if e.end_nodes.0 == n {
            with_neighbor(before, e.end_nodes.1)
        } else {
            before
        };
        lemma_with_neighbor_contains(before, e.end_nodes.1, m);
        lemma_with_neighbor_contains(first, e.end_nodes.0, m);
        if neighbors_of(rest, n).contains(m) {
            let i = choose|i: int| 0 <= i < rest.len() && (#[trigger] rest[i]).joins(n, m);
            assert(edges[i].joins(n, m));
        }
        if e.joins(n, m) {
            assert(edges[edges.len() - 1].joins(n, m));
        }
        if exists|i: int| 0 <= i < edges.len() && (#[trigger] edges[i]).joins(n, m) {
            let i = choose|i: int| 0 <= i < edges.len() && (#[trigger] edges[i]).joins(n, m);
            if i < rest.len() {
                assert(rest[i].joins(n, m));
            }
        }
    }
}

/// What `with_neighbor` holds: what the list held, and the node added.
pub proof fn lemma_with_neighbor_contains(list: Seq<i32>, n: i32, m: i32)
    ensures
        with_neighbor(list, n).contains(m) <==> list.contains(m) || m == n,
{
    if list.contains(n) {
    } else {
        let grown = list.push(n);
        assert(grown[list.len() as int] == n);
        if list.contains(m) {
            let i = choose|i: int| 0 <= i < list.len() && list[i] == m;
            assert(grown[i] == m);
        }
        if grown.contains(m) {
            let i = choose|i: int| 0 <= i < grown.len() && grown[i] == m;
            if i < list.len() {
                assert(list[i] == m);
            }
        }
    }
}

/// A length is recorded between two nodes exactly when some edge joins them.
pub proof fn lemma_length_iff_joined(edges: Seq<UnEdge>, u: i32, v: i32)
    ensures
        length_of(edges, u, v) is Some <==> exists|i: int|
            0 <= i < edges.len() && (#[trigger] edges[i]).joins(u, v),
    decreases edges.len(),
{
    if edges.len() > 0 {
        let rest = edges.drop_last();
        lemma_length_iff_joined(rest, u, v);
        if edges.last().joins(u, v) {
            assert(edges[edges.len() - 1].joins(u, v));
        } else {
            if length_of(rest, u, v) is Some {
                let i = choose|i: int| 0 <= i < rest.len() && (#[trigger] rest[i]).joins(u, v);
                assert(edges[i].joins(u, v));
            }
            if exists|i: int| 0 <= i < edges.len() && (#[trigger] edges[i]).joins(u, v) {
                let i = choose|i: int| 0 <= i < edges.len() && (#[trigger] edges[i]).joins(u, v);
                assert(rest[i].joins(u, v));
            }
        }
    }
}

/// The recorded length does not depend on the direction.
pub proof fn lemma_length_symmetric(edges: Seq<UnEdge>, u: i32, v: i32)
    ensures
        length_of(edges, u, v) == length_of(edges, v, u),
    decreases edges.len(),
{
    if edges.len() > 0 {
        lemma_length_symmetric(edges.drop_last(), u, v);
    }
}

/// Every neighbour of a node is at a recorded length from it, and is itself a
/// node of the graph.
pub proof fn lemma_neighbor_has_length(edges: Seq<UnEdge>, n: i32, m: i32)
    requires
        neighbors_of(edges, n).contains(m),
    ensures
        length_of(edges, n, m) is Some,
        neighbors_of(edges, m).len() > 0,
        is_node(edges, m),
{
    lemma_neighbors_joined(edges, n, m);
    lemma_length_iff_joined(edges, n, m);
    lemma_neighbors_symmetric(edges, n, m);
    lemma_neighbors_iff_node(edges, m);
}

/// No node is listed twice among the neighbours of a node.
pub proof fn lemma_neighbors_distinct(edges: Seq<UnEdge>, n: i32)
    ensures
        neighbors_of(edges, n).no_duplicates(),
    decreases edges.len(),
{
    if edges.len() > 0 {
        lemma_neighbors_distinct(edges.drop_last(), n);
    }
}

} // verus!
