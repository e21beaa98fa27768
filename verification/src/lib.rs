//! Scene-graph metadata of a vector-graphics document: the tree of layers
//! projected out of a node graph, with selection state and the decisions
//! behind transform and bounds queries.

pub mod identifier;
pub mod model;
pub mod insertion;
pub mod deletion;
pub mod keyset;
pub mod metadata;
pub mod tree;
pub mod children;
pub mod walk;
pub mod preorder;
pub mod descendants;
pub mod laws;
pub mod layers;
pub mod ancestry;
pub mod ancestry_laws;
pub mod graph;
pub mod rebuild;
pub mod transform;

pub use identifier::{LayerNodeIdentifier, NodeId, NodeRelations, ROOT_NODE};
pub use metadata::{DocumentMetadata, SelectionChanged};
pub use walk::{Axis, AxisIter};
pub use descendants::DecendantsIter;
pub use graph::{is_artboard, is_folder, DocumentNode, NodeNetwork};
pub use transform::DownstreamTransform;
