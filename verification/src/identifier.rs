//! Layer identifiers and the per-layer link record.

use vstd::prelude::*;

verus! {

/// Key of a node in the node graph.
pub type NodeId = u64;

/// The key reserved for the virtual document root.
pub const ROOT_NODE: NodeId = 0;

/// Handle of a layer: the key of the graph node that produces it.
///
/// The key `0` is reserved for the virtual document root, which need not
/// correspond to any node of the graph.
#[derive(Clone, Copy, PartialEq, Eq, PartialOrd, Ord, Hash, Debug, Structural)]
pub struct LayerNodeIdentifier(pub u64);

/// The links of one layer into the tree. All five are weak references into
/// the structure map.
#[derive(Clone, Copy, PartialEq, Eq, Debug, Structural)]
pub struct NodeRelations {
    pub parent: Option<LayerNodeIdentifier>,
    pub previous_sibling: Option<LayerNodeIdentifier>,
    pub next_sibling: Option<LayerNodeIdentifier>,
    pub first_child: Option<LayerNodeIdentifier>,
    pub last_child: Option<LayerNodeIdentifier>,
}

impl Default for NodeRelations {
    fn default() -> (relations: Self)
        ensures
            relations == NodeRelations::unlinked(),
    {
        NodeRelations {
            parent: None,
            previous_sibling: None,
            next_sibling: None,
            first_child: None,
            last_child: None,
        }
    }
}

impl NodeRelations {
    /// This record with another parent.
    pub open spec fn set_parent(self, link: Option<LayerNodeIdentifier>) -> NodeRelations {
        NodeRelations { parent: link, ..self }
    }

    /// This record with another previous sibling.
    pub open spec fn set_previous(self, link: Option<LayerNodeIdentifier>) -> NodeRelations {
        NodeRelations { previous_sibling: link, ..self }
    }

    /// This record with another next sibling.
    pub open spec fn set_next(self, link: Option<LayerNodeIdentifier>) -> NodeRelations {
        NodeRelations { next_sibling: link, ..self }
    }

    /// This record with another first child.
    pub open spec fn set_first(self, link: Option<LayerNodeIdentifier>) -> NodeRelations {
        NodeRelations { first_child: link, ..self }
    }

    /// This record with another last child.
    pub open spec fn set_last(self, link: Option<LayerNodeIdentifier>) -> NodeRelations {
        NodeRelations { last_child: link, ..self }
    }

    /// The record of a layer that is linked to nothing.
    pub open spec fn unlinked() -> NodeRelations {
        NodeRelations {
            parent: None,
            previous_sibling: None,
            next_sibling: None,
            first_child: None,
            last_child: None,
        }
    }
}

impl Default for LayerNodeIdentifier {
    fn default() -> (layer: Self)
        ensures
            layer == LayerNodeIdentifier(ROOT_NODE),
    {
        LayerNodeIdentifier(ROOT_NODE)
    }
}

impl LayerNodeIdentifier {
    /// The virtual root of every document, in contracts.
    pub open spec fn spec_root() -> LayerNodeIdentifier {
        LayerNodeIdentifier(ROOT_NODE)
    }

    /// The virtual root of every document.
    #[verifier::when_used_as_spec(spec_root)]
    pub fn root() -> (layer: Self)
        ensures
            layer == LayerNodeIdentifier(ROOT_NODE),
    {
        LayerNodeIdentifier(ROOT_NODE)
    }

    /// Makes the identifier of the layer that node `node_id` produces, without
    /// looking at the graph.
    pub fn new_unchecked(node_id: NodeId) -> (layer: Self)
        ensures
            layer == LayerNodeIdentifier(node_id),
    {
        LayerNodeIdentifier(node_id)
    }

    /// The key of the graph node behind this layer.
    pub fn to_node(self) -> (node_id: NodeId)
        ensures
            node_id == self.0,
    {
        self.0
    }

    /// The path of this layer: its node key alone.
    pub fn to_path(self) -> (path: Vec<NodeId>)
        ensures
            path@ == seq![self.0],
    {
        let mut path: Vec<NodeId> = Vec::new();
        path.push(self.0);
        path
    }
}

impl From<NodeId> for LayerNodeIdentifier {
    fn from(node_id: NodeId) -> (layer: Self) {
        LayerNodeIdentifier(node_id)
    }
}

impl vstd::std_specs::convert::FromSpecImpl<NodeId> for LayerNodeIdentifier {
    open spec fn obeys_from_spec() -> bool {
        true
    }

    open spec fn from_spec(node_id: NodeId) -> Self {
        LayerNodeIdentifier(node_id)
    }
}

impl From<LayerNodeIdentifier> for NodeId {
    fn from(identifier: LayerNodeIdentifier) -> (node_id: Self) {
        identifier.0
    }
}

impl vstd::std_specs::convert::FromSpecImpl<LayerNodeIdentifier> for NodeId {
    open spec fn obeys_from_spec() -> bool {
        true
    }

    open spec fn from_spec(identifier: LayerNodeIdentifier) -> Self {
        identifier.0
    }
}

} // verus!
