//! Reduction and recovery of valency-two nodes in a road graph held as a
//! weight matrix and a predecessor matrix.  A node with exactly one
//! incoming and one outgoing edge is removed and its two edges fused; after
//! the shortest-path computation on the reduced graph the removed nodes are
//! put back, with their distances and predecessors restored.

pub mod reduction;
pub mod expansion;

use vstd::prelude::*;

verus! {

/// One removed valency-two node: its index, the node its single incoming
/// edge comes from, the node its single outgoing edge goes to, and the two
/// edge weights.
#[derive(Clone, Copy, Debug, PartialEq, Eq, Structural)]
pub struct Val2Node {
    pub node: usize,
    pub node_from: usize,
    pub node_from_dist: i64,
    pub node_to: usize,
    pub node_to_dist: i64,
}

impl Val2Node {
    pub fn new(node: usize, node_from: usize, node_from_dist: i64, node_to: usize, node_to_dist: i64) -> (r: Val2Node)
        ensures
            r == (Val2Node { node, node_from, node_from_dist, node_to, node_to_dist }),
    {
        Val2Node { node, node_from, node_from_dist, node_to, node_to_dist }
    }
}

} // verus!
