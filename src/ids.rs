//! Opaque integer handles for partitions, nodes, node types and relation kinds.
use vstd::prelude::*;

verus! {

/// Identifies one graph partition.
#[derive(Clone, Copy, Debug, PartialEq, Eq, Hash, Structural)]
pub struct GraphId {
    pub id: i64,
}

/// Identifies one node of a graph.
#[derive(Clone, Copy, Debug, PartialEq, Eq, Hash, Structural)]
pub struct NodeId {
    pub id: i64,
}

/// Identifies one non-core node type of the registry.
#[derive(Clone, Copy, Debug, PartialEq, Eq, Hash, Structural)]
pub struct NodeTypeId {
    pub id: usize,
}

/// Identifies one relation kind of the registry.
#[derive(Clone, Copy, Debug, PartialEq, Eq, Hash, Structural)]
pub struct EdgeTypeId {
    pub id: usize,
}

impl GraphId {
    pub fn value(&self) -> (r: i64)
        ensures
            r == self.id,
    {
        self.id
    }
}

impl NodeId {
    pub fn value(&self) -> (r: i64)
        ensures
            r == self.id,
    {
        self.id
    }
}

impl NodeTypeId {
    pub fn value(&self) -> (r: usize)
        ensures
            r == self.id,
    {
        self.id
    }
}

impl EdgeTypeId {
    pub fn value(&self) -> (r: usize)
        ensures
            r == self.id,
    {
        self.id
    }
}

impl From<i64> for GraphId {
    fn from(id: i64) -> (r: GraphId) {
        GraphId { id }
    }
}

impl vstd::std_specs::convert::FromSpecImpl<i64> for GraphId {
    open spec fn obeys_from_spec() -> bool {
        true
    }

    open spec fn from_spec(v: i64) -> GraphId {
        GraphId { id: v }
    }
}

impl From<i64> for NodeId {
    fn from(id: i64) -> (r: NodeId) {
        NodeId { id }
    }
}

impl vstd::std_specs::convert::FromSpecImpl<i64> for NodeId {
    open spec fn obeys_from_spec() -> bool {
        true
    }

    open spec fn from_spec(v: i64) -> NodeId {
        NodeId { id: v }
    }
}

impl From<usize> for NodeTypeId {
    fn from(id: usize) -> (r: NodeTypeId) {
        NodeTypeId { id }
    }
}

impl vstd::std_specs::convert::FromSpecImpl<usize> for NodeTypeId {
    open spec fn obeys_from_spec() -> bool {
        true
    }

    open spec fn from_spec(v: usize) -> NodeTypeId {
        NodeTypeId { id: v }
    }
}

} // verus!
