//! The shape of the node graph, as far as the layer tree is read from it:
//! which nodes there are, what their inputs point at, and which of them make
//! layers and artboards.

use std::collections::HashMap;
use vstd::prelude::*;
use crate::identifier::{LayerNodeIdentifier, NodeId, ROOT_NODE};

verus! {

broadcast use vstd::std_specs::hash::group_hash_axioms;

/// One node of the graph.
pub struct DocumentNode {
    /// For every input, in order, the node that it is wired to; `None` for an
    /// input that holds a value or comes from outside the graph.
    pub inputs: Vec<Option<NodeId>>,
    /// Whether the node makes a layer.
    pub is_layer: bool,
    /// Whether the node makes an artboard.
    pub is_artboard: bool,
}

/// A snapshot of the graph.
pub struct NodeNetwork {
    /// The nodes whose results leave the graph; the first is the document's.
    pub outputs: Vec<NodeId>,
    /// The nodes by their keys.
    pub nodes: HashMap<NodeId, DocumentNode>,
}

/// What to look for on a walk upstream.
#[derive(Clone, Copy, PartialEq, Eq, Debug, Structural)]
pub struct Wanted {
    pub layers: bool,
    pub artboards: bool,
}

impl Wanted {
    /// Whether `node` is what is looked for.
    pub open spec fn spec_matches(self, node: DocumentNode) -> bool {
        (self.layers && node.is_layer) || (self.artboards && node.is_artboard)
    }

    /// Whether `node` is what is looked for.
    pub fn matches(self, node: &DocumentNode) -> (found: bool)
        ensures
            found == self.spec_matches(*node),
    {
        (self.layers && node.is_layer) || (self.artboards && node.is_artboard)
    }
}

impl DocumentNode {
    /// The node that input `index` is wired to, if there is such an input and
    /// it is wired to a node.
    pub open spec fn spec_input(&self, index: int) -> Option<NodeId> {
        if 0 <= index < self.inputs@.len() {
            self.inputs@[index]
        } else {
            None
        }
    }

    /// The node that input `index` is wired to, if there is such an input and
    /// it is wired to a node.
    pub fn input(&self, index: usize) -> (wired: Option<NodeId>)
        ensures
            wired == self.spec_input(index as int),
    {
        if index < self.inputs.len() {
            self.inputs[index]
        } else {
            None
        }
    }
}

impl NodeNetwork {
    /// The node that input `index` of node `id` is wired to.
    pub open spec fn spec_input_of(&self, id: NodeId, index: int) -> Option<NodeId> {
        if self.nodes@.contains_key(id) {
            self.nodes@[id].spec_input(index)
        } else {
            None
        }
    }

    /// The first node that is looked for on the walk that starts at `start`
    /// and goes from each node to the one that its first input is wired to.
    /// The walk ends at a key without a node, and after `steps` nodes.
    pub open spec fn spec_find_upstream(
        &self,
        start: Option<NodeId>,
        wanted: Wanted,
        steps: nat,
    ) -> Option<NodeId>
        decreases steps,
    {
        match start {
            None => None,
            Some(id) => if steps == 0 || !self.nodes@.contains_key(id) {
                None
            } else if wanted.spec_matches(self.nodes@[id]) {
                Some(id)
            } else {
                self.spec_find_upstream(self.nodes@[id].spec_input(0), wanted, (steps - 1) as nat)
            },
        }
    }

    /// The nearest layer upstream of the first input of node `id`.
    pub open spec fn spec_first_child_layer(&self, id: NodeId) -> Option<NodeId> {
        self.spec_find_upstream(
            self.spec_input_of(id, 0),
            Wanted { layers: true, artboards: false },
            self.nodes@.len(),
        )
    }

    /// The layer that the second input of node `id` is wired to.
    pub open spec fn spec_sibling_below(&self, id: NodeId) -> Option<NodeId> {
        match self.spec_input_of(id, 1) {
            Some(below) => if self.nodes@.contains_key(below) && self.nodes@[below].is_layer {
                Some(below)
            } else {
                None
            },
            None => None,
        }
    }

    /// Whether node `node` is there and makes a layer, or is the root.
    pub open spec fn spec_is_layer_node(&self, node: NodeId) -> bool {
        node == ROOT_NODE || (self.nodes@.contains_key(node) && self.nodes@[node].is_layer)
    }

    /// Whether an artboard stands on the walk upstream from the layer, the
    /// layer's own node included.
    pub open spec fn spec_is_artboard(&self, layer: LayerNodeIdentifier) -> bool {
        self.spec_find_upstream(
            Some(layer.0),
            Wanted { layers: false, artboards: true },
            self.nodes@.len(),
        ) is Some
    }

    /// Whether the layer groups other layers: its first input is there and is
    /// wired to no node, or a layer or an artboard stands on the walk upstream
    /// from it, its own node left out.
    pub open spec fn spec_is_folder(&self, layer: LayerNodeIdentifier) -> bool {
        self.nodes@.contains_key(layer.0) && ((self.nodes@[layer.0].inputs@.len() > 0
            && self.nodes@[layer.0].inputs@[0] is None) || self.spec_find_upstream(
            self.nodes@[layer.0].spec_input(0),
            Wanted { layers: true, artboards: true },
            self.nodes@.len(),
        ) is Some)
    }

    /// The first node that is looked for on the walk upstream from `start`.
    pub fn find_upstream(&self, start: Option<NodeId>, wanted: Wanted) -> (found: Option<NodeId>)
        ensures
            found == self.spec_find_upstream(start, wanted, self.nodes@.len()),
            found matches Some(id) ==> self.nodes@.contains_key(id) && wanted.spec_matches(
                self.nodes@[id],
            ),
    {
        let mut current = start;
        let mut steps = self.nodes.len();
        while steps > 0
            invariant
                self.spec_find_upstream(start, wanted, self.nodes@.len())
                    == self.spec_find_upstream(current, wanted, steps as nat),
            decreases steps,
        {
            match current {
                None => {
                    return None;
                },
                Some(id) => {
                    match self.nodes.get(&id) {
                        None => {
                            return None;
                        },
                        Some(node) => {
                            if wanted.matches(node) {
                                return Some(id);
                            }
                            current = node.input(0);
                            steps -= 1;
                        },
                    }
                },
            }
        }
        None
    }

    /// The node that input `index` of node `id` is wired to.
    pub fn input_of(&self, id: NodeId, index: usize) -> (wired: Option<NodeId>)
        ensures
            wired == self.spec_input_of(id, index as int),
    {
        match self.nodes.get(&id) {
            Some(node) => node.input(index),
            None => None,
        }
    }

    /// The nearest layer upstream of the first input of node `id`.
    pub fn first_child_layer(&self, id: NodeId) -> (layer: Option<NodeId>)
        ensures
            layer == self.spec_first_child_layer(id),
            layer matches Some(child) ==> self.nodes@.contains_key(child)
                && self.nodes@[child].is_layer,
    {
        self.find_upstream(self.input_of(id, 0), Wanted { layers: true, artboards: false })
    }

    /// The layer that the second input of node `id` is wired to.
    pub fn sibling_below(&self, id: NodeId) -> (layer: Option<NodeId>)
        ensures
            layer == self.spec_sibling_below(id),
            layer matches Some(below) ==> self.nodes@.contains_key(below)
                && self.nodes@[below].is_layer,
    {
        match self.input_of(id, 1) {
            Some(below) => match self.nodes.get(&below) {
                Some(node) => if node.is_layer {
                    Some(below)
                } else {
                    None
                },
                None => None,
            },
            None => None,
        }
    }

    /// Whether node `node` is there and makes a layer, or is the root.
    pub fn is_layer_node(&self, node: NodeId) -> (layer: bool)
        ensures
            layer == self.spec_is_layer_node(node),
    {
        if node == ROOT_NODE {
            return true;
        }
        match self.nodes.get(&node) {
            Some(document_node) => document_node.is_layer,
            None => false,
        }
    }

    /// Whether the graph has a node with key `node`.
    pub fn has_node(&self, node: NodeId) -> (has: bool)
        ensures
            has == self.nodes@.contains_key(node),
    {
        self.nodes.contains_key(&node)
    }
}

/// Whether an artboard stands on the walk upstream from `layer`, the layer's
/// own node included.
pub fn is_artboard(layer: LayerNodeIdentifier, network: &NodeNetwork) -> (artboard: bool)
    ensures
        artboard == network.spec_is_artboard(layer),
{
    network.find_upstream(Some(layer.to_node()), Wanted { layers: false, artboards: true }).is_some()
}

/// Whether `layer` groups other layers: its first input is there and is wired
/// to no node, or a layer or an artboard stands on the walk upstream from it,
/// its own node left out.
pub fn is_folder(layer: LayerNodeIdentifier, network: &NodeNetwork) -> (folder: bool)
    ensures
        folder == network.spec_is_folder(layer),
{
    match network.nodes.get(&layer.to_node()) {
        Some(node) => {
            if node.inputs.len() > 0 && node.inputs[0].is_none() {
                return true;
            }
            network.find_upstream(node.input(0), Wanted { layers: true, artboards: true }).is_some()
        },
        None => false,
    }
}

impl LayerNodeIdentifier {
    /// The identifier of the layer that node `node_id` of `network` makes.
    pub fn new(node_id: NodeId, network: &NodeNetwork) -> (layer: Self)
        requires
            network.spec_is_layer_node(node_id),
        ensures
            layer == LayerNodeIdentifier(node_id),
    {
        LayerNodeIdentifier::new_unchecked(node_id)
    }

    /// The identifier of the layer at the end of `path`.
    pub fn from_path(path: &[u64], network: &NodeNetwork) -> (layer: Self)
        requires
            path@.len() > 0,
            network.spec_is_layer_node(path@.last()),
        ensures
            layer == LayerNodeIdentifier(path@.last()),
    {
        LayerNodeIdentifier::new(path[path.len() - 1], network)
    }
}

} // verus!
