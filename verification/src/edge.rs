use vstd::prelude::*;

verus! {

/// An undirected edge: its two end nodes and its length in whole units.
#[derive(Clone, Copy, Debug)]
pub struct UnEdge {
    pub end_nodes: (i32, i32),
    pub length: u32,
}

impl UnEdge {
    /// `n` is one of the two end nodes.
    pub open spec fn touches(self, n: i32) -> bool {
        self.end_nodes.0 == n || self.end_nodes.1 == n
    }

    /// The edge runs between `u` and `v`, in either direction.
    pub open spec fn joins(self, u: i32, v: i32) -> bool {
        (self.end_nodes.0 == u && self.end_nodes.1 == v) || (self.end_nodes.0 == v
            && self.end_nodes.1 == u)
    }

    /// The end node opposite to `n`; the first end node is tried first, so a
    /// loop on `n` gives `n` back.
    pub open spec fn opposite(self, n: i32) -> i32 {
        if n == self.end_nodes.0 {
            self.end_nodes.1
        } else {
            self.end_nodes.0
        }
    }

    /// The two edges have an end node in common.
    pub open spec fn shares_node(self, other: UnEdge) -> bool {
        self.touches(other.end_nodes.0) || self.touches(other.end_nodes.1)
    }

    pub fn new(end_nodes: (i32, i32), length: u32) -> (e: UnEdge)
        ensures
            e.end_nodes == end_nodes,
            e.length == length,
    {
        UnEdge { end_nodes, length }
    }

    /// The end node at the other side of `n`, which must be an end node of
    /// this edge.
    pub fn other_end(&self, n: i32) -> (m: i32)
        requires
            self.touches(n),
        ensures
            m == self.opposite(n),
            self.joins(n, m),
    {
        if n == self.end_nodes.0 {
            self.end_nodes.1
        } else {
            self.end_nodes.0
        }
    }

    /// Whether the two edges meet in a node.
    pub fn is_adjacent(&self, other: UnEdge) -> (b: bool)
        ensures
            b == self.shares_node(other),
    {
        self.end_nodes.0 == other.end_nodes.0 || self.end_nodes.0 == other.end_nodes.1
            || self.end_nodes.1 == other.end_nodes.0 || self.end_nodes.1 == other.end_nodes.1
    }
}

} // verus!
