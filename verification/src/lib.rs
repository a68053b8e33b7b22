//! Enumeration of the walks between two nodes of an undirected, weighted
//! graph whose length stays within a tolerance of the shortest one.
//!
//! Lengths are whole numbers of a unit that the caller chooses; a walk may
//! visit a node more than once. [`UnGraph::compute_shortest_paths`] is the
//! entry point: it returns every walk of one step or more from the start to
//! the target that is at most the tolerance times as long as the shortest
//! such walk, each once, the shorter ones first.
//!
//! The modules, from the ground up:
//! - `edge`, `model`, `graph`: edges, what an edge list says about lengths
//!   and neighbours, and the index that answers both questions;
//! - `path`, `tolerance`: paths with their length and their extensions, and
//!   the factor by which a path may be longer than the shortest;
//! - `ranking`, `search`: the order and the cut of the paths found, and the
//!   search round by round;
//! - `laws`, `complete`, `distinct`, `giving_up`, `finishing`: what is proved
//!   of every search;
//! - `lists`: facts about lists that those proofs rest on.

pub mod complete;
pub mod distinct;
pub mod edge;
pub mod error;
pub mod finishing;
pub mod giving_up;
pub mod graph;
pub mod laws;
pub mod lists;
pub mod model;
pub mod path;
pub mod ranking;
pub mod search;
pub mod tolerance;

pub use edge::UnEdge;
pub use error::PathError;
pub use graph::UnGraph;
pub use path::UnPath;
pub use tolerance::Tolerance;
