//! Which layers of the document are selected, artboards or folders, and the
//! listings of layers by these tags.

use vstd::prelude::*;
use crate::identifier::{LayerNodeIdentifier, NodeId};
use crate::metadata::{DocumentMetadata, SelectionChanged};
use crate::descendants::DecendantsIter;
use crate::model::root_id;

verus! {

broadcast use vstd::std_specs::hash::group_hash_axioms;

/// Filtering a sequence with one more item at its end.
pub proof fn lemma_filter_push<A>(s: Seq<A>, x: A, keep: spec_fn(A) -> bool)
    ensures
        s.push(x).filter(keep) == (if keep(x) {
            s.filter(keep).push(x)
        } else {
            s.filter(keep)
        }),
{
    reveal(Seq::filter);
    assert(s.push(x).drop_last() =~= s);
}

/// Whether `node` is among `nodes`.
pub fn contains_node(nodes: &Vec<NodeId>, node: NodeId) -> (found: bool)
    ensures
        found == nodes@.contains(node),
{
    let mut i: usize = 0;
    while i < nodes.len()
        invariant
            0 <= i <= nodes.len(),
            forall|j: int| 0 <= j < i ==> nodes@[j] != node,
        decreases nodes.len() - i,
    {
        if nodes[i] == node {
            return true;
        }
        i += 1;
    }
    false
}

/// The items of `items` whose flag in `keep` is set, in their order.
pub open spec fn pick<A>(items: Seq<A>, keep: Seq<bool>) -> Seq<A>
    decreases items.len(),
{
    if items.len() == 0 || keep.len() != items.len() {
        Seq::empty()
    } else if keep.last() {
        pick(items.drop_last(), keep.drop_last()).push(items.last())
    } else {
        pick(items.drop_last(), keep.drop_last())
    }
}

impl DocumentMetadata {
    /// The test that a listing of layers applies: whether a layer has to be
    /// selected, must not be an artboard, has to be a folder.
    pub open spec fn layer_filter(
        &self,
        selected_only: bool,
        skip_artboards: bool,
        folders_only: bool,
    ) -> spec_fn(LayerNodeIdentifier) -> bool {
        |layer: LayerNodeIdentifier|
            (selected_only ==> self.spec_selected_nodes().contains(layer.0)) && (skip_artboards
                ==> !self.spec_artboards().contains(layer)) && (folders_only
                ==> self.spec_folders().contains(layer))
    }

    /// Whether `layer` is tagged as a folder.
    pub fn is_folder(&self, layer: LayerNodeIdentifier) -> (tagged: bool)
        ensures
            tagged == self.spec_folders().contains(layer),
    {
        self.has_folder_tag(layer)
    }

    /// Whether `layer` is tagged as an artboard.
    pub fn is_artboard(&self, layer: LayerNodeIdentifier) -> (tagged: bool)
        ensures
            tagged == self.spec_artboards().contains(layer),
    {
        self.has_artboard_tag(layer)
    }

    /// The layers of `layers` that pass the test, in their order.
    fn filter_layers(
        &self,
        layers: &Vec<LayerNodeIdentifier>,
        selected_only: bool,
        skip_artboards: bool,
        folders_only: bool,
    ) -> (kept: Vec<LayerNodeIdentifier>)
        ensures
            kept@ == layers@.filter(self.layer_filter(selected_only, skip_artboards, folders_only)),
    {
        let ghost keep = self.layer_filter(selected_only, skip_artboards, folders_only);
        let mut kept: Vec<LayerNodeIdentifier> = Vec::new();
        let mut i: usize = 0;
        proof {
            reveal(Seq::filter);
            assert(layers@.take(0) =~= Seq::<LayerNodeIdentifier>::empty());
        }
        while i < layers.len()
            invariant
                0 <= i <= layers.len(),
                keep == self.layer_filter(selected_only, skip_artboards, folders_only),
                kept@ == layers@.take(i as int).filter(keep),
            decreases layers.len() - i,
        {
            let layer = layers[i];
            let passes = (!selected_only || contains_node(self.selection(), layer.to_node()))
                && (!skip_artboards || !self.is_artboard(layer)) && (!folders_only
                || self.is_folder(layer));
            proof {
                lemma_filter_push(layers@.take(i as int), layer, keep);
                assert(layers@.take(i + 1) =~= layers@.take(i as int).push(layer));
                assert(passes == keep(layer));
            }
            if passes {
                kept.push(layer);
            }
            i += 1;
        }
        proof {
            assert(layers@.take(layers.len() as int) =~= layers@);
        }
        kept
    }

    /// A walk through all the layers of the document, the root left out.
    pub fn all_layers(&self) -> (walk: DecendantsIter<'_>)
        requires
            self.wf(),
        ensures
            walk.wf(),
            walk.document() == self,
            walk.remaining() == self.spec_descendants(root_id()),
    {
        self.root().decendants(self)
    }

    /// All the layers that are no artboards, in pre-order.
    pub fn all_layers_except_artboards(&self) -> (layers: Vec<LayerNodeIdentifier>)
        requires
            self.wf(),
        ensures
            layers@ == self.spec_descendants(root_id()).filter(
                self.layer_filter(false, true, false),
            ),
    {
        let all = self.all_layers().collect();
        self.filter_layers(&all, false, true, false)
    }

    /// All the layers whose node is selected, in pre-order.
    pub fn selected_layers(&self) -> (layers: Vec<LayerNodeIdentifier>)
        requires
            self.wf(),
        ensures
            layers@ == self.spec_descendants(root_id()).filter(
                self.layer_filter(true, false, false),
            ),
    {
        let all = self.all_layers().collect();
        self.filter_layers(&all, true, false, false)
    }

    /// All the layers whose node is selected and that are no artboards, in
    /// pre-order.
    pub fn selected_layers_except_artboards(&self) -> (layers: Vec<LayerNodeIdentifier>)
        requires
            self.wf(),
        ensures
            layers@ == self.spec_descendants(root_id()).filter(self.layer_filter(true, true, false)),
    {
        let all = self.all_layers().collect();
        self.filter_layers(&all, true, true, false)
    }

    /// Whether `layer` is a layer of the document whose node is selected.
    pub fn selected_layers_contains(&self, layer: LayerNodeIdentifier) -> (found: bool)
        requires
            self.wf(),
        ensures
            found == self.spec_descendants(root_id()).filter(
                self.layer_filter(true, false, false),
            ).contains(layer),
    {
        let selected = self.selected_layers();
        let mut i: usize = 0;
        while i < selected.len()
            invariant
                0 <= i <= selected.len(),
                selected@ == self.spec_descendants(root_id()).filter(
                    self.layer_filter(true, false, false),
                ),
                forall|j: int| 0 <= j < i ==> selected@[j] != layer,
            decreases selected.len() - i,
        {
            if selected[i] == layer {
                return true;
            }
            i += 1;
        }
        false
    }

    /// The selected nodes, in the order of their selection.
    pub fn selected_nodes(&self) -> (nodes: Vec<NodeId>)
        ensures
            nodes@ == self.spec_selected_nodes(),
    {
        self.selection().clone()
    }

    /// The selected nodes, in the order of their selection.
    pub fn selected_nodes_ref(&self) -> (nodes: &Vec<NodeId>)
        ensures
            nodes@ == self.spec_selected_nodes(),
    {
        self.selection()
    }

    /// Whether any node is selected.
    pub fn has_selected_nodes(&self) -> (any: bool)
        ensures
            any == (self.spec_selected_nodes().len() > 0),
    {
        self.selection().len() > 0
    }

    /// The layers of `layers` that are tagged as folders, in their order.
    pub fn folders(&self, layers: Vec<LayerNodeIdentifier>) -> (kept: Vec<LayerNodeIdentifier>)
        ensures
            kept@ == layers@.filter(self.layer_filter(false, false, true)),
    {
        self.filter_layers(&layers, false, false, true)
    }

    /// Keeps the selected nodes for which `keep` says so, in their order.
    pub fn retain_selected_nodes<F: Fn(&NodeId) -> bool>(&mut self, keep: F) -> (changed:
        SelectionChanged)
        requires
            forall|node: NodeId| #[trigger] keep.requires((&node,)),
        ensures
            final(self).same_tree(old(self)),
            final(self).same_caches(old(self)),
            exists|flags: Seq<bool>|
                {
                    &&& flags.len() == old(self).spec_selected_nodes().len()
                    &&& forall|i: int|
                        0 <= i < flags.len() ==> keep.ensures(
                            (&old(self).spec_selected_nodes()[i],),
                            #[trigger] flags[i],
                        )
                    &&& final(self).spec_selected_nodes() == pick(
                        old(self).spec_selected_nodes(),
                        flags,
                    )
                },
    {
        let mut kept: Vec<NodeId> = Vec::new();
        let ghost mut flags: Seq<bool> = Seq::empty();
        let mut i: usize = 0;
        let nodes = self.selection();
        while i < nodes.len()
            invariant
                0 <= i <= nodes.len(),
                forall|node: NodeId| #[trigger] keep.requires((&node,)),
                flags.len() == i,
                forall|j: int| 0 <= j < i ==> keep.ensures((&nodes@[j],), #[trigger] flags[j]),
                kept@ == pick(nodes@.take(i as int), flags),
            decreases nodes.len() - i,
        {
            let node = nodes[i];
            let flag = keep(&node);
            proof {
                let before = nodes@.take(i as int);
                let after = nodes@.take(i + 1);
                assert(after.drop_last() =~= before);
                assert(flags.push(flag).drop_last() =~= flags);
                flags = flags.push(flag);
            }
            if flag {
                kept.push(node);
            }
            i += 1;
        }
        proof {
            assert(nodes@.take(nodes.len() as int) =~= nodes@);
        }
        self.replace_selection(kept);
        SelectionChanged
    }

    /// Makes `new` the selection.
    pub fn set_selected_nodes(&mut self, new: Vec<NodeId>) -> (changed: SelectionChanged)
        ensures
            final(self).same_tree(old(self)),
            final(self).same_caches(old(self)),
            final(self).spec_selected_nodes() == new@,
    {
        self.replace_selection(new);
        SelectionChanged
    }

    /// Adds `nodes` at the end of the selection. A node that is selected
    /// already is selected twice afterwards.
    pub fn add_selected_nodes(&mut self, nodes: Vec<NodeId>) -> (changed: SelectionChanged)
        ensures
            final(self).same_tree(old(self)),
            final(self).same_caches(old(self)),
            final(self).spec_selected_nodes() == old(self).spec_selected_nodes() + nodes@,
    {
        let mut selection = self.selection().clone();
        let mut nodes = nodes;
        selection.append(&mut nodes);
        self.replace_selection(selection);
        SelectionChanged
    }

    /// Empties the selection.
    pub fn clear_selected_nodes(&mut self) -> (changed: SelectionChanged)
        ensures
            final(self).same_tree(old(self)),
            final(self).same_caches(old(self)),
            final(self).spec_selected_nodes() == Seq::<NodeId>::empty(),
    {
        self.set_selected_nodes(Vec::new())
    }
}

} // verus!
