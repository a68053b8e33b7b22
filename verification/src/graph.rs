//! The graph index: the edge list together with the two lookups built from
//! it, the length between two nodes and the neighbours of a node.

use crate::edge::UnEdge;
use crate::model::{
    is_node, lemma_neighbors_iff_node, length_of, neighbors_of, node_set, with_neighbor,
};
use std::collections::HashMap;
use std::collections::HashSet;
use vstd::prelude::*;

verus! {

broadcast use vstd::std_specs::hash::group_hash_axioms;

/// An undirected graph with its lookups. The lookups are built once, by
/// `new`, and never change.
pub struct UnGraph {
    edges: Vec<UnEdge>,
    edge_length_map: HashMap<u64, u32>,
    node_neighbors_map: HashMap<i32, Vec<i32>>,
}

/// The key under which the length from `u` to `v` is stored: the two nodes,
/// each moved into the non-negative range, side by side in one word.
spec fn pair_key(u: i32, v: i32) -> u64 {
    ((u + 0x8000_0000) * 0x1_0000_0000 + (v + 0x8000_0000)) as u64
}

proof fn lemma_pair_key_injective(u: i32, v: i32, a: i32, b: i32)
    ensures
        pair_key(u, v) == pair_key(a, b) <==> u == a && v == b,
{
}

fn key_of(u: i32, v: i32) -> (k: u64)
    ensures
        k == pair_key(u, v),
{
    let high: u64 = (u as i64 + 0x8000_0000) as u64;
    let low: u64 = (v as i64 + 0x8000_0000) as u64;
    high * 0x1_0000_0000 + low
}

/// What a length map holds under a key.
spec fn recorded(m: Map<u64, u32>, k: u64) -> Option<u32> {
    if m.contains_key(k) {
        Some(m[k])
    } else {
        None
    }
}

/// What a neighbour map lists for a node; nothing where it has no entry.
spec fn listed(m: Map<i32, Vec<i32>>, n: i32) -> Seq<i32> {
    if m.contains_key(n) {
        m[n]@
    } else {
        Seq::empty()
    }
}

fn list_contains(list: &Vec<i32>, n: i32) -> (found: bool)
    ensures
        found == list@.contains(n),
{
    let mut i: usize = 0;
    while i < list.len()
        invariant
            i <= list.len(),
            forall|j: int| 0 <= j < i ==> list@[j] != n,
        decreases list.len() - i,
    {
        if list[i] == n {
            return true;
        }
        i += 1;
    }
    false
}

/// Lists `neighbor` for `node`, unless it is listed already.
fn add_neighbor(map: &mut HashMap<i32, Vec<i32>>, node: i32, neighbor: i32)
    requires
        forall|n: i32| old(map)@.contains_key(n) ==> (#[trigger] old(map)@[n])@.len() > 0,
    ensures
        forall|n: i32| final(map)@.contains_key(n) ==> (#[trigger] final(map)@[n])@.len() > 0,
        listed(final(map)@, node) == with_neighbor(listed(old(map)@, node), neighbor),
        forall|n: i32| n != node ==> #[trigger] listed(final(map)@, n) == listed(old(map)@, n),
{
    match map.remove(&node) {
        Some(list) => {
            let mut list = list;
            if !list_contains(&list, neighbor) {
                list.push(neighbor);
            }
            map.insert(node, list);
        },
        None => {
            let mut list: Vec<i32> = Vec::new();
            list.push(neighbor);
            assert(list@ =~= with_neighbor(Seq::empty(), neighbor));
            map.insert(node, list);
        },
    }
}

/// The edge that a triple of two end nodes and a length stands for.
pub open spec fn edge_of(triple: (i32, i32, u32)) -> UnEdge {
    UnEdge { end_nodes: (triple.0, triple.1), length: triple.2 }
}

impl View for UnGraph {
    type V = Seq<UnEdge>;

    /// A graph is read as its edge list; `length_of`, `neighbors_of` and
    /// `node_set` say what the lookups hold for it.
    closed spec fn view(&self) -> Seq<UnEdge> {
        self.edges@
    }
}

impl UnGraph {
    #[verifier::type_invariant]
    spec fn lookups_agree(self) -> bool {
        &&& forall|u: i32, v: i32|
            recorded(self.edge_length_map@, #[trigger] pair_key(u, v)) == length_of(
                self.edges@,
                u,
                v,
            )
        &&& forall|n: i32| #[trigger]
            listed(self.node_neighbors_map@, n) == neighbors_of(self.edges@, n)
        &&& forall|n: i32|
            self.node_neighbors_map@.contains_key(n) ==> (
            #[trigger] self.node_neighbors_map@[n])@.len() > 0
    }

    /// Builds the index of an edge list. Where two edges join the same pair
    /// of nodes, the later one gives the length.
    pub fn new(edges: Vec<UnEdge>) -> (g: UnGraph)
        ensures
            g@ == edges@,
    {
        let mut lengths: HashMap<u64, u32> = HashMap::new();
        let mut i: usize = 0;
        while i < edges.len()
            invariant
                i <= edges.len(),
                forall|u: i32, v: i32|
                    recorded(lengths@, #[trigger] pair_key(u, v)) == length_of(
                        edges@.take(i as int),
                        u,
                        v,
                    ),
            decreases edges.len() - i,
        {
            let e = edges[i];
            let ghost before = lengths@;
            lengths.insert(key_of(e.end_nodes.0, e.end_nodes.1), e.length);
            lengths.insert(key_of(e.end_nodes.1, e.end_nodes.0), e.length);
            proof {
                let seen = edges@.take(i as int);
                let now = edges@.take(i + 1);
                assert(now.drop_last() =~= seen);
                assert(now.last() == e);
                assert forall|u: i32, v: i32|
                    recorded(lengths@, #[trigger] pair_key(u, v)) == length_of(now, u, v) by {
                    lemma_pair_key_injective(u, v, e.end_nodes.0, e.end_nodes.1);
                    lemma_pair_key_injective(u, v, e.end_nodes.1, e.end_nodes.0);
                    assert(recorded(before, pair_key(u, v)) == length_of(seen, u, v));
                }
            }
            i += 1;
        }
        let mut neighbors: HashMap<i32, Vec<i32>> = HashMap::new();
        let mut j: usize = 0;
        while j < edges.len()
            invariant
                j <= edges.len(),
                forall|n: i32| #[trigger]
                    listed(neighbors@, n) == neighbors_of(edges@.take(j as int), n),
                forall|n: i32|
                    neighbors@.contains_key(n) ==> (#[trigger] neighbors@[n])@.len() > 0,
            decreases edges.len() - j,
        {
            let e = edges[j];
            let ghost before = neighbors@;
            add_neighbor(&mut neighbors, e.end_nodes.0, e.end_nodes.1);
            let ghost between = neighbors@;
            add_neighbor(&mut neighbors, e.end_nodes.1, e.end_nodes.0);
            proof {
                let seen = edges@.take(j as int);
                let now = edges@.take(j + 1);
                assert(now.drop_last() =~= seen);
                assert(now.last() == e);
                assert forall|n: i32| #[trigger]
                    listed(neighbors@, n) == neighbors_of(now, n) by {
                    assert(listed(before, n) == neighbors_of(seen, n));
                    assert(n != e.end_nodes.0 ==> listed(between, n) == listed(before, n));
                    assert(n != e.end_nodes.1 ==> listed(neighbors@, n) == listed(between, n));
                }
            }
            j += 1;
        }
        proof {
            assert(edges@.take(edges.len() as int) =~= edges@);
        }
        UnGraph { edges, edge_length_map: lengths, node_neighbors_map: neighbors }
    }

    /// Builds the index of the edges given as triples: two end nodes and a
    /// length.
    pub fn from_tuples(edge_tuples: Vec<(i32, i32, u32)>) -> (g: UnGraph)
        ensures
            g@ == edge_tuples@.map_values(|t: (i32, i32, u32)| edge_of(t)),
    {
        let mut edges: Vec<UnEdge> = Vec::new();
        let mut i: usize = 0;
        while i < edge_tuples.len()
            invariant
                i <= edge_tuples.len(),
                edges@ == edge_tuples@.take(i as int).map_values(
                    |t: (i32, i32, u32)| edge_of(t),
                ),
            decreases edge_tuples.len() - i,
        {
            let t = edge_tuples[i];
            edges.push(UnEdge { end_nodes: (t.0, t.1), length: t.2 });
            proof {
                assert(edges@ =~= edge_tuples@.take(i + 1).map_values(
                    |t: (i32, i32, u32)| edge_of(t),
                ));
            }
            i += 1;
        }
        proof {
            assert(edge_tuples@.take(i as int) =~= edge_tuples@);
        }
        UnGraph::new(edges)
    }

    /// The edge list from which the index was built.
    pub fn edges(&self) -> (edges: &Vec<UnEdge>)
        ensures
            edges@ == self@,
    {
        &self.edges
    }

    /// The number of edges, counting each entry of the edge list.
    pub fn edge_count(&self) -> (n: usize)
        ensures
            n == self@.len(),
    {
        self.edges.len()
    }

    /// The number of distinct nodes.
    pub fn node_count(&self) -> (n: usize)
        ensures
            n == node_set(self@).len(),
    {
        proof {
            use_type_invariant(self);
            assert forall|n: i32|
                self.node_neighbors_map@.dom().contains(n) == node_set(self.edges@).contains(
                    n,
                ) by {
                lemma_neighbors_iff_node(self.edges@, n);
                assert(listed(self.node_neighbors_map@, n) == neighbors_of(self.edges@, n));
            }
            assert(self.node_neighbors_map@.dom() =~= node_set(self.edges@));
        }
        self.node_neighbors_map.len()
    }

    /// The length recorded between `u` and `v`, if an edge joins them.
    pub fn length_between(&self, u: i32, v: i32) -> (w: Option<u32>)
        ensures
            w == length_of(self@, u, v),
    {
        proof {
            use_type_invariant(self);
            assert(recorded(self.edge_length_map@, pair_key(u, v)) == length_of(
                self.edges@,
                u,
                v,
            ));
        }
        let key = key_of(u, v);
        match self.edge_length_map.get(&key) {
            Some(w) => Some(*w),
            None => None,
        }
    }

    /// The neighbours of `n`, or `None` where `n` is no node of the graph.
    pub fn neighbors(&self, n: i32) -> (list: Option<&Vec<i32>>)
        ensures
            list is Some <==> is_node(self@, n),
            list is Some ==> list->0@ == neighbors_of(self@, n),
    {
        proof {
            use_type_invariant(self);
            lemma_neighbors_iff_node(self.edges@, n);
            assert(listed(self.node_neighbors_map@, n) == neighbors_of(self.edges@, n));
        }
        self.node_neighbors_map.get(&n)
    }

    /// Whether `n` is a node of the graph.
    pub fn has_node(&self, n: i32) -> (known: bool)
        ensures
            known == is_node(self@, n),
    {
        self.neighbors(n).is_some()
    }

    /// The set of all nodes of the graph.
    pub fn get_nodes(&self) -> (all_nodes: HashSet<i32>)
        ensures
            all_nodes@ == node_set(self@),
    {
        let mut all_nodes: HashSet<i32> = HashSet::new();
        let mut i: usize = 0;
        while i < self.edges.len()
            invariant
                i <= self.edges.len(),
                all_nodes@ == node_set(self.edges@.take(i as int)),
            decreases self.edges.len() - i,
        {
            let e = self.edges[i];
            all_nodes.insert(e.end_nodes.0);
            all_nodes.insert(e.end_nodes.1);
            proof {
                let seen = self.edges@.take(i as int);
                let now = self.edges@.take(i + 1);
                assert forall|n: i32| is_node(now, n) <==> (is_node(seen, n) || e.touches(n)) by {
                    if is_node(seen, n) {
                        let k = choose|k: int|
                            0 <= k < seen.len() && (#[trigger] seen[k]).touches(n);
                        assert(now[k].touches(n));
                    }
                    if e.touches(n) {
                        assert(now[i as int].touches(n));
                    }
                    if is_node(now, n) {
                        let k = choose|k: int|
                            0 <= k < now.len() && (#[trigger] now[k]).touches(n);
                        if k < i {
                            assert(seen[k].touches(n));
                        }
                    }
                }
                assert(all_nodes@ =~= node_set(now));
            }
            i += 1;
        }
        proof {
            assert(self.edges@.take(self.edges.len() as int) =~= self.edges@);
        }
        all_nodes
    }
}

} // verus!
