//! Why a search may give up: a walk between two nodes can be cut down to one
//! that visits no node twice on its way, and such a walk has no more steps
//! than the graph has nodes.

use crate::complete::lemma_reaches_next_frontier;
use crate::edge::UnEdge;
use crate::model::{is_node, lemma_length_iff_joined, length_of, node_set};
use crate::path::{is_walk, missing_edge};
use crate::search::{arrives, ends_at, first_round, next_round, sound, Round};
use crate::tolerance::Tolerance;
use vstd::prelude::*;
use vstd::set_lib::lemma_len_subset;

verus! {

/// An edge makes the step of a path from its node at `k` to the next.
pub open spec fn has_step(edges: Seq<UnEdge>, nodes: Seq<i32>, k: int) -> bool {
    length_of(edges, nodes[k], nodes[k + 1]) is Some
}

/// A path misses no step exactly when an edge makes each of its steps.
pub proof fn lemma_walk_steps(edges: Seq<UnEdge>, nodes: Seq<i32>)
    ensures
        missing_edge(edges, nodes) is None <==> forall|k: int|
            0 <= k < nodes.len() - 1 ==> #[trigger] has_step(edges, nodes, k),
    decreases nodes.len(),
{
    if nodes.len() >= 2 {
        let rest = nodes.drop_last();
        lemma_walk_steps(edges, rest);
        if missing_edge(edges, nodes) is None {
            assert forall|k: int| 0 <= k < nodes.len() - 1 implies #[trigger] has_step(
                edges,
                nodes,
                k,
            ) by {
                if k < rest.len() - 1 {
                    assert(has_step(edges, rest, k));
                }
            }
        }
        if forall|k: int| 0 <= k < nodes.len() - 1 ==> #[trigger] has_step(edges, nodes, k) {
            assert forall|k: int| 0 <= k < rest.len() - 1 implies #[trigger] has_step(
                edges,
                rest,
                k,
            ) by {
                assert(has_step(edges, nodes, k));
            }
            assert(has_step(edges, nodes, nodes.len() - 2));
        }
    }
}

/// A graph has finitely many nodes.
pub proof fn lemma_node_set_finite(edges: Seq<UnEdge>)
    ensures
        node_set(edges).finite(),
    decreases edges.len(),
{
    if edges.len() == 0 {
        assert(node_set(edges) =~= Set::<i32>::empty());
    } else {
        let rest = edges.drop_last();
        let e = edges.last();
        lemma_node_set_finite(rest);
        assert forall|n: i32| is_node(edges, n) <==> (is_node(rest, n) || e.touches(n)) by {
            if is_node(rest, n) {
                let k = choose|k: int| 0 <= k < rest.len() && (#[trigger] rest[k]).touches(n);
                assert(edges[k].touches(n));
            }
            if e.touches(n) {
                assert(edges[edges.len() - 1].touches(n));
            }
            if is_node(edges, n) {
                let k = choose|k: int| 0 <= k < edges.len() && (#[trigger] edges[k]).touches(n);
                if k < rest.len() {
                    assert(rest[k].touches(n));
                }
            }
        }
        assert(node_set(edges) =~= node_set(rest).insert(e.end_nodes.0).insert(e.end_nodes.1));
    }
}

/// Every node of a walk after the first is a node of the graph.
pub proof fn lemma_walk_nodes(edges: Seq<UnEdge>, nodes: Seq<i32>, k: int)
    requires
        is_walk(edges, nodes),
        1 <= k < nodes.len(),
    ensures
        is_node(edges, nodes[k]),
{
    lemma_walk_steps(edges, nodes);
    assert(has_step(edges, nodes, k - 1));
    lemma_length_iff_joined(edges, nodes[k - 1], nodes[k]);
    let i = choose|i: int|
        0 <= i < edges.len() && (#[trigger] edges[i]).joins(nodes[k - 1], nodes[k]);
    assert(edges[i].touches(nodes[k]));
}

/// A walk of more steps than the graph has nodes comes to some node twice
/// after its start.
pub proof fn lemma_repeats(edges: Seq<UnEdge>, nodes: Seq<i32>) -> (at: (int, int))
    requires
        is_walk(edges, nodes),
        nodes.len() - 1 > node_set(edges).len(),
    ensures
        1 <= at.0 < at.1 < nodes.len(),
        nodes[at.0] == nodes[at.1],
{
    let later = nodes.skip(1);
    lemma_node_set_finite(edges);
    if later.no_duplicates() {
        later.unique_seq_to_set();
        assert forall|n: i32| later.to_set().contains(n) implies node_set(edges).contains(n) by {
            let k = choose|k: int| 0 <= k < later.len() && later[k] == n;
            lemma_walk_nodes(edges, nodes, k + 1);
        }
        lemma_len_subset(later.to_set(), node_set(edges));
    }
    let (a, b) = choose|a: int, b: int|
        0 <= a < later.len() && 0 <= b < later.len() && a != b && later[a] == later[b];
    if a < b {
        (a + 1, b + 1)
    } else {
        (b + 1, a + 1)
    }
}

/// A path without what lies between two of its places: the nodes up to the
/// first place, then those after the second.
pub open spec fn cut(nodes: Seq<i32>, from: int, to: int) -> Seq<i32> {
    nodes.take(from + 1) + nodes.skip(to + 1)
}

/// A walk that arrives still arrives when a round trip is cut out of it.
pub proof fn lemma_cut_arrives(
    edges: Seq<UnEdge>,
    start: i32,
    end: i32,
    nodes: Seq<i32>,
    from: int,
    to: int,
)
    requires
        arrives(edges, start, end, nodes),
        1 <= from < to < nodes.len(),
        nodes[from] == nodes[to],
    ensures
        arrives(edges, start, end, cut(nodes, from, to)),
        cut(nodes, from, to).len() < nodes.len(),
{
    let short = cut(nodes, from, to);
    lemma_walk_steps(edges, nodes);
    lemma_walk_steps(edges, short);
    assert forall|k: int| 0 <= k < short.len() - 1 implies #[trigger] has_step(
        edges,
        short,
        k,
    ) by {
        if k < from {
            assert(has_step(edges, nodes, k));
        } else {
            assert(has_step(edges, nodes, k + (to - from)));
        }
    }
}

/// Where a walk arrives, one arrives that has no more steps than the graph
/// has nodes.
pub proof fn lemma_short_walk(edges: Seq<UnEdge>, start: i32, end: i32, nodes: Seq<i32>) -> (short:
    Seq<i32>)
    requires
        arrives(edges, start, end, nodes),
    ensures
        arrives(edges, start, end, short),
        short.len() <= node_set(edges).len() + 1,
    decreases nodes.len(),
{
    if nodes.len() <= node_set(edges).len() + 1 {
        nodes
    } else {
        let at = lemma_repeats(edges, nodes);
        lemma_cut_arrives(edges, start, end, nodes, at.0, at.1);
        lemma_short_walk(edges, start, end, cut(nodes, at.0, at.1))
    }
}

/// A walk from `start` of `steps` steps.
pub open spec fn proceeds(edges: Seq<UnEdge>, start: i32, steps: nat, nodes: Seq<i32>) -> bool {
    is_walk(edges, nodes) && nodes[0] == start && nodes.len() == steps + 1
}

/// What holds after `steps` rounds of a search that has found nothing: the
/// frontier holds every walk from `start` of `steps` steps, and no walk of so
/// few steps arrives.
pub open spec fn unpruned(
    edges: Seq<UnEdge>,
    start: i32,
    end: i32,
    round: Round,
    steps: nat,
) -> bool {
    round.found.len() == 0 ==> {
        &&& forall|w: Seq<i32>| #[trigger]
            proceeds(edges, start, steps, w) ==> round.frontier.contains(w)
        &&& forall|w: Seq<i32>| #[trigger] arrives(edges, start, end, w) ==> w.len() > steps + 1
    }
}

/// A search has pruned nothing at its start.
pub proof fn lemma_first_round_unpruned(edges: Seq<UnEdge>, start: i32, end: i32)
    ensures
        unpruned(edges, start, end, first_round(start), 0),
{
    let round = first_round(start);
    assert forall|w: Seq<i32>| #[trigger]
        proceeds(edges, start, 0, w) implies round.frontier.contains(w) by {
        assert(w =~= seq![start]);
        assert(round.frontier[0] == w);
    }
}

/// A round that finds nothing has pruned nothing.
pub proof fn lemma_next_round_unpruned(
    edges: Seq<UnEdge>,
    start: i32,
    end: i32,
    tol: Tolerance,
    round: Round,
    steps: nat,
)
    requires
        sound(edges, start, end, round),
        unpruned(edges, start, end, round, steps),
    ensures
        unpruned(edges, start, end, next_round(edges, round, end, tol), steps + 1),
{
    let next = next_round(edges, round, end, tol);
    if next.found.len() == 0 {
        assert(round.found.len() == 0);
        assert forall|w: Seq<i32>| #[trigger]
            proceeds(edges, start, steps + 1, w) implies next.frontier.contains(w) by {
            assert(proceeds(edges, start, steps, w.drop_last()));
            lemma_reaches_next_frontier(edges, round, end, tol, w);
        }
        assert forall|w: Seq<i32>| #[trigger] arrives(edges, start, end, w) implies w.len()
            > steps + 2 by {
            if w.len() == steps + 2 {
                assert(proceeds(edges, start, steps + 1, w));
                let m = choose|m: int| 0 <= m < next.frontier.len() && next.frontier[m] == w;
                assert(ends_at(end)(next.frontier[m]));
                next.frontier.lemma_filter_contains(ends_at(end), m);
            }
        }
    }
}

/// A search that has found nothing after more rounds than the graph has
/// nodes has nothing to find: no walk arrives.
pub proof fn lemma_nothing_arrives(
    edges: Seq<UnEdge>,
    start: i32,
    end: i32,
    round: Round,
    steps: nat,
    w: Seq<i32>,
)
    requires
        unpruned(edges, start, end, round, steps),
        round.found.len() == 0,
        steps >= node_set(edges).len(),
    ensures
        !arrives(edges, start, end, w),
{
    if arrives(edges, start, end, w) {
        let short = lemma_short_walk(edges, start, end, w);
        assert(short.len() > steps + 1);
    }
}

} // verus!
