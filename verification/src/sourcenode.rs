//! Leaf identity for toy, string-encoded plans.

use vstd::prelude::*;

verus! {

/// Identifies a source (leaf) group that was not seeded from a logical plan.
#[derive(Debug, Clone)]
pub struct SourceNode {
    pub node_id: String,
}

impl SourceNode {
    /// Wraps a node identifier.
    pub fn new(node_id: String) -> (r: SourceNode)
        ensures
            r.node_id@ == node_id@,
    {
        SourceNode { node_id }
    }
}

} // verus!
