//! Identifiers and ways as the map source hands them over.

use vstd::prelude::*;

verus! {

/// The identifier that the map source gives a node. It is stable across
/// builds, unlike the dense index a graph assigns.
#[derive(Hash, Eq, PartialEq, Structural, PartialOrd, Debug, Clone, Copy)]
pub struct NodeID(pub i64);

/// A way: the nodes it passes through, in order, and the length of each
/// segment between two consecutive nodes.
///
/// ```text
/// a -> b -> c -> d
///   d0   d1   d2
/// ```
pub struct Way {
    pub nodes: Vec<NodeID>,
    pub distances: Vec<u32>,
}

} // verus!
