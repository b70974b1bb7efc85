//! Quasi-clique discovery on typed, bipartite multigraphs: typed ids, graph
//! building and k-core pruning, and candidate scoring and search.

pub mod beam;
pub mod candidate;
pub mod graph;
pub mod ids;
pub mod line;
pub mod output;
pub mod row;
pub mod test_utils;
pub mod transformer;
pub mod typespec;

pub use beam::SearchResult;
pub use candidate::{Candidate, Score, Weights};
pub use graph::{Edge, Graph, Node};
pub use ids::{EdgeTypeId, GraphId, NodeId, NodeTypeId};
pub use row::{CliqueRow, EdgeRow, Row};
pub use transformer::Transformer;
pub use typespec::TypeRegistry;
