//! The document's metadata: the layer tree, the tags of its layers and the
//! selection.

use std::collections::HashMap;
use vstd::prelude::*;
use crate::identifier::{LayerNodeIdentifier, NodeId, NodeRelations, ROOT_NODE};
use crate::keyset::KeySet;
use crate::model::{Links, Preorder, rel, root_id, tree_inv};

verus! {

broadcast use vstd::std_specs::hash::group_hash_axioms;

/// The tree of layers of one document, with the tags and caches that go with
/// the layers, and the selection.
pub struct DocumentMetadata {
    pub(crate) structure: HashMap<u64, NodeRelations>,
    pub(crate) artboards: KeySet,
    pub(crate) folders: KeySet,
    pub(crate) upstream_transforms: KeySet,
    pub(crate) click_targets: KeySet,
    pub(crate) selected_nodes: Vec<NodeId>,
    pub(crate) listing: Ghost<Preorder>,
}

/// Marks that the selection was changed: the caller has to pass the news on.
#[must_use]
pub struct SelectionChanged;

impl View for DocumentMetadata {
    type V = Links;

    /// The links of every layer that exists.
    closed spec fn view(&self) -> Links {
        Map::new(
            |x: LayerNodeIdentifier| self.structure@.contains_key(x.0),
            |x: LayerNodeIdentifier| self.structure@[x.0],
        )
    }
}

impl DocumentMetadata {
    /// The pre-order listing that goes with the links.
    pub closed spec fn listing(&self) -> Preorder {
        self.listing@
    }

    /// The links form a tree below the root.
    pub open spec fn wf(&self) -> bool {
        tree_inv(self@, self.listing())
    }

    /// The layers tagged as artboards.
    pub closed spec fn spec_artboards(&self) -> Set<LayerNodeIdentifier> {
        Set::new(|x: LayerNodeIdentifier| self.artboards@.contains(x.0))
    }

    /// The layers tagged as folders.
    pub closed spec fn spec_folders(&self) -> Set<LayerNodeIdentifier> {
        Set::new(|x: LayerNodeIdentifier| self.folders@.contains(x.0))
    }

    /// The artboards in the order in which they were found.
    pub closed spec fn spec_artboard_list(&self) -> Seq<NodeId> {
        self.artboards.spec_keys()
    }

    /// The nodes for which a transform is cached.
    pub closed spec fn spec_upstream_transforms(&self) -> Set<NodeId> {
        self.upstream_transforms@
    }

    /// The layers for which click targets are cached.
    pub closed spec fn spec_click_targets(&self) -> Set<LayerNodeIdentifier> {
        Set::new(|x: LayerNodeIdentifier| self.click_targets@.contains(x.0))
    }

    /// The selected nodes, in the order of their selection.
    pub closed spec fn spec_selected_nodes(&self) -> Seq<NodeId> {
        self.selected_nodes@
    }

    /// The tree is the same in both.
    pub open spec fn same_tree(&self, other: &DocumentMetadata) -> bool {
        self@ == other@ && self.listing() == other.listing()
    }

    /// The tags and the caches are the same in both.
    pub open spec fn same_caches(&self, other: &DocumentMetadata) -> bool {
        &&& self.spec_artboards() == other.spec_artboards()
        &&& self.spec_folders() == other.spec_folders()
        &&& self.spec_artboard_list() == other.spec_artboard_list()
        &&& self.spec_upstream_transforms() == other.spec_upstream_transforms()
        &&& self.spec_click_targets() == other.spec_click_targets()
    }

    /// Everything but the tree is the same in both.
    pub open spec fn same_tags(&self, other: &DocumentMetadata) -> bool {
        &&& self.spec_artboards() == other.spec_artboards()
        &&& self.spec_folders() == other.spec_folders()
        &&& self.spec_artboard_list() == other.spec_artboard_list()
        &&& self.spec_upstream_transforms() == other.spec_upstream_transforms()
        &&& self.spec_click_targets() == other.spec_click_targets()
        &&& self.spec_selected_nodes() == other.spec_selected_nodes()
    }

    /// The record of `layer`, if it exists.
    pub(crate) fn get_relations(&self, layer: LayerNodeIdentifier) -> (relations: Option<
        NodeRelations,
    >)
        ensures
            relations == (if self@.contains_key(layer) {
                Some(self@[layer])
            } else {
                None
            }),
    {
        match self.structure.get(&layer.0) {
            Some(relations) => Some(*relations),
            None => None,
        }
    }

    /// The record of `layer`, or an unlinked one.
    pub(crate) fn relations_or_default(&self, layer: LayerNodeIdentifier) -> (relations:
        NodeRelations)
        ensures
            relations == rel(self@, layer),
    {
        match self.structure.get(&layer.0) {
            Some(relations) => *relations,
            None => NodeRelations::default(),
        }
    }

    /// Stores `relations` as the record of `layer`.
    pub(crate) fn set_relations(&mut self, layer: LayerNodeIdentifier, relations: NodeRelations)
        ensures
            final(self)@ == old(self)@.insert(layer, relations),
            final(self).listing() == old(self).listing(),
            final(self).same_tags(old(self)),
    {
        self.structure.insert(layer.0, relations);
        assert(self@ =~= old(self)@.insert(layer, relations));
    }

    /// Drops the record of `layer`.
    pub(crate) fn remove_relations(&mut self, layer: LayerNodeIdentifier)
        ensures
            final(self)@ == old(self)@.remove(layer),
            final(self).listing() == old(self).listing(),
            final(self).same_tags(old(self)),
    {
        self.structure.remove(&layer.0);
        assert(self@ =~= old(self)@.remove(layer));
    }

    /// Drops every layer but the root, and unlinks the root.
    pub(crate) fn reset_tree(&mut self)
        ensures
            final(self).wf(),
            final(self)@ == Map::<LayerNodeIdentifier, NodeRelations>::empty().insert(
                root_id(),
                NodeRelations::unlinked(),
            ),
            final(self).listing() == Preorder::root_only(),
            final(self).same_tags(old(self)),
    {
        let mut structure: HashMap<u64, NodeRelations> = HashMap::new();
        structure.insert(ROOT_NODE, NodeRelations::default());
        self.structure = structure;
        self.listing = Ghost(Preorder::root_only());
        proof {
            let l = self@;
            let t = self.listing();
            assert(l =~= Map::<LayerNodeIdentifier, NodeRelations>::empty().insert(
                root_id(),
                NodeRelations::unlinked(),
            ));
            assert(t.order[0] == root_id());
            assert(tree_inv(l, t));
        }
    }

    /// Replaces the listing that goes with the links.
    pub(crate) fn set_listing(&mut self, listing: Ghost<Preorder>)
        ensures
            final(self)@ == old(self)@,
            final(self).listing() == listing@,
            final(self).same_tags(old(self)),
    {
        self.listing = listing;
    }

    /// The selected nodes.
    pub(crate) fn selection(&self) -> (nodes: &Vec<NodeId>)
        ensures
            nodes@ == self.spec_selected_nodes(),
    {
        &self.selected_nodes
    }

    /// Makes `nodes` the selection.
    pub(crate) fn replace_selection(&mut self, nodes: Vec<NodeId>)
        ensures
            final(self).same_tree(old(self)),
            final(self).same_caches(old(self)),
            final(self).spec_selected_nodes() == nodes@,
    {
        self.selected_nodes = nodes;
    }

    /// Whether `layer` has the artboard tag.
    pub(crate) fn has_artboard_tag(&self, layer: LayerNodeIdentifier) -> (tagged: bool)
        ensures
            tagged == self.spec_artboards().contains(layer),
    {
        self.artboards.contains(layer.0)
    }

    /// Whether `layer` has the folder tag.
    pub(crate) fn has_folder_tag(&self, layer: LayerNodeIdentifier) -> (tagged: bool)
        ensures
            tagged == self.spec_folders().contains(layer),
    {
        self.folders.contains(layer.0)
    }

    /// Replaces the artboard and folder tags.
    pub(crate) fn replace_tags(&mut self, artboards: Vec<NodeId>, folders: Vec<NodeId>)
        ensures
            final(self).same_tree(old(self)),
            final(self).spec_artboard_list() == artboards@,
            final(self).spec_artboards() == Set::new(
                |x: LayerNodeIdentifier| artboards@.contains(x.0),
            ),
            final(self).spec_folders() == Set::new(|x: LayerNodeIdentifier| folders@.contains(x.0)),
            final(self).spec_upstream_transforms() == old(self).spec_upstream_transforms(),
            final(self).spec_click_targets() == old(self).spec_click_targets(),
            final(self).spec_selected_nodes() == old(self).spec_selected_nodes(),
    {
        self.artboards = KeySet::from_keys(artboards);
        self.folders = KeySet::from_keys(folders);
        assert(self.spec_artboards() =~= Set::new(
            |x: LayerNodeIdentifier| artboards@.contains(x.0),
        ));
        assert(self.spec_folders() =~= Set::new(|x: LayerNodeIdentifier| folders@.contains(x.0)));
    }

    /// Replaces the set of nodes with a cached transform.
    pub(crate) fn replace_upstream_transforms(&mut self, nodes: Vec<NodeId>)
        ensures
            final(self).same_tree(old(self)),
            final(self).spec_artboard_list() == old(self).spec_artboard_list(),
            final(self).spec_artboards() == old(self).spec_artboards(),
            final(self).spec_folders() == old(self).spec_folders(),
            final(self).spec_upstream_transforms() == nodes@.to_set(),
            final(self).spec_click_targets() == old(self).spec_click_targets(),
            final(self).spec_selected_nodes() == old(self).spec_selected_nodes(),
    {
        self.upstream_transforms = KeySet::from_keys(nodes);
    }

    /// Replaces the set of layers with cached click targets.
    pub(crate) fn replace_click_targets(&mut self, nodes: Vec<NodeId>)
        ensures
            final(self).same_tree(old(self)),
            final(self).spec_artboard_list() == old(self).spec_artboard_list(),
            final(self).spec_artboards() == old(self).spec_artboards(),
            final(self).spec_folders() == old(self).spec_folders(),
            final(self).spec_upstream_transforms() == old(self).spec_upstream_transforms(),
            final(self).spec_click_targets() == Set::new(
                |x: LayerNodeIdentifier| nodes@.contains(x.0),
            ),
            final(self).spec_selected_nodes() == old(self).spec_selected_nodes(),
    {
        self.click_targets = KeySet::from_keys(nodes);
        assert(self.spec_click_targets() =~= Set::new(
            |x: LayerNodeIdentifier| nodes@.contains(x.0),
        ));
    }

    /// The artboards in the order in which they were found.
    pub(crate) fn artboard_list(&self) -> (nodes: &Vec<NodeId>)
        ensures
            nodes@ == self.spec_artboard_list(),
            forall|x: LayerNodeIdentifier|
                #[trigger] self.spec_artboards().contains(x) <==> nodes@.contains(x.0),
    {
        proof {
            self.artboards.lemma_keys();
        }
        self.artboards.keys()
    }

    /// The nodes with a cached transform, in the order in which they were given.
    pub(crate) fn upstream_transform_list(&self) -> (nodes: &Vec<NodeId>)
        ensures
            nodes@.to_set() == self.spec_upstream_transforms(),
    {
        proof {
            self.upstream_transforms.lemma_keys();
        }
        self.upstream_transforms.keys()
    }

    /// The layers with cached click targets, in the order in which they were given.
    pub(crate) fn click_target_list(&self) -> (nodes: &Vec<NodeId>)
        ensures
            forall|x: LayerNodeIdentifier|
                #[trigger] self.spec_click_targets().contains(x) <==> nodes@.contains(x.0),
    {
        proof {
            self.click_targets.lemma_keys();
        }
        self.click_targets.keys()
    }

    /// Whether a transform is cached for `node`.
    pub(crate) fn has_upstream_transform(&self, node: NodeId) -> (cached: bool)
        ensures
            cached == self.spec_upstream_transforms().contains(node),
    {
        self.upstream_transforms.contains(node)
    }

    /// Whether click targets are cached for `layer`.
    pub(crate) fn has_click_targets(&self, layer: LayerNodeIdentifier) -> (cached: bool)
        ensures
            cached == self.spec_click_targets().contains(layer),
    {
        self.click_targets.contains(layer.0)
    }

    /// The root layer of the document.
    pub fn root(&self) -> (layer: LayerNodeIdentifier)
        ensures
            layer == root_id(),
    {
        LayerNodeIdentifier(ROOT_NODE)
    }

    /// Whether `layer` is in the tree.
    pub fn layer_exists(&self, layer: LayerNodeIdentifier) -> (present: bool)
        ensures
            present == self@.contains_key(layer),
    {
        self.structure.contains_key(&layer.0)
    }
}

impl Default for DocumentMetadata {
    /// A document that holds the root alone, with nothing selected.
    fn default() -> (metadata: Self)
        ensures
            metadata.wf(),
            metadata@ == Map::<LayerNodeIdentifier, NodeRelations>::empty().insert(
                root_id(),
                NodeRelations::unlinked(),
            ),
            metadata.spec_artboards() == Set::<LayerNodeIdentifier>::empty(),
            metadata.spec_folders() == Set::<LayerNodeIdentifier>::empty(),
            metadata.spec_selected_nodes() == Seq::<NodeId>::empty(),
            metadata.spec_artboard_list() == Seq::<NodeId>::empty(),
            metadata.spec_upstream_transforms() == Set::<NodeId>::empty(),
            metadata.spec_click_targets() == Set::<LayerNodeIdentifier>::empty(),
    {
        let mut structure: HashMap<u64, NodeRelations> = HashMap::new();
        structure.insert(ROOT_NODE, NodeRelations::default());
        let metadata = DocumentMetadata {
            structure,
            artboards: KeySet::from_keys(Vec::new()),
            folders: KeySet::from_keys(Vec::new()),
            upstream_transforms: KeySet::from_keys(Vec::new()),
            click_targets: KeySet::from_keys(Vec::new()),
            selected_nodes: Vec::new(),
            listing: Ghost(Preorder::root_only()),
        };
        proof {
            let l = metadata@;
            let t = metadata.listing();
            assert(l =~= Map::<LayerNodeIdentifier, NodeRelations>::empty().insert(
                root_id(),
                NodeRelations::unlinked(),
            ));
            assert(metadata.spec_artboards() =~= Set::<LayerNodeIdentifier>::empty());
            assert(metadata.spec_folders() =~= Set::<LayerNodeIdentifier>::empty());
            assert(metadata.spec_click_targets() =~= Set::<LayerNodeIdentifier>::empty());
            assert(metadata.spec_upstream_transforms() =~= Set::<NodeId>::empty());
            assert(t.order[0] == root_id());
            assert(tree_inv(l, t));
        }
        metadata
    }
}

impl Clone for DocumentMetadata {
    fn clone(&self) -> (copy: Self)
        ensures
            copy.same_tree(self),
            copy.same_caches(self),
            copy.spec_selected_nodes() == self.spec_selected_nodes(),
    {
        DocumentMetadata {
            structure: self.structure.clone(),
            artboards: self.artboards.clone(),
            folders: self.folders.clone(),
            upstream_transforms: self.upstream_transforms.clone(),
            click_targets: self.click_targets.clone(),
            selected_nodes: self.selected_nodes.clone(),
            listing: Ghost(self.listing@),
        }
    }
}

} // verus!
