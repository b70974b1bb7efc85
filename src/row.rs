//! Structured records: edges between two nodes, and membership hints.
use vstd::prelude::*;
use crate::ids::{EdgeTypeId, GraphId, NodeId, NodeTypeId};

verus! {

/// An edge record. The source type id is 0 exactly when the source is of the
/// configured core type.
#[derive(Clone, Copy, Debug, PartialEq, Eq, Structural)]
pub struct EdgeRow {
    pub graph_id: GraphId,
    pub source_id: NodeId,
    pub target_id: NodeId,
    pub source_type_id: NodeTypeId,
    pub target_type_id: NodeTypeId,
    pub edge_type_id: EdgeTypeId,
}

/// A membership record: a node of a partition, with its type id when it is
/// not of the core type.
#[derive(Clone, Copy, Debug, PartialEq, Eq, Structural)]
pub struct CliqueRow {
    pub graph_id: GraphId,
    pub node_id: NodeId,
    pub target_type: Option<NodeTypeId>,
}

/// One classified record.
#[derive(Clone, Copy, Debug, PartialEq, Eq, Structural)]
pub enum Row {
    Edge(EdgeRow),
    Clique(CliqueRow),
}

impl Row {
    pub fn as_edge_row(&self) -> (r: Option<EdgeRow>)
        ensures
            r == (match *self {
                Row::Edge(e) => Some(e),
                Row::Clique(_) => None::<EdgeRow>,
            }),
    {
        match self {
            Row::Edge(e) => Some(*e),
            Row::Clique(_) => None,
        }
    }

    pub fn as_clique_row(&self) -> (r: Option<CliqueRow>)
        ensures
            r == (match *self {
                Row::Clique(c) => Some(c),
                Row::Edge(_) => None::<CliqueRow>,
            }),
    {
        match self {
            Row::Clique(c) => Some(*c),
            Row::Edge(_) => None,
        }
    }
}

} // verus!
