//! Which cached entry answers a question about the transform of a layer. The
//! transforms themselves are kept by the caller, under the keys named here.

use vstd::prelude::*;
use crate::identifier::{LayerNodeIdentifier, NodeId};
use crate::metadata::DocumentMetadata;

verus! {

/// Where the transform that a layer hands down to the viewport comes from.
#[derive(Clone, Copy, PartialEq, Eq, Debug, Structural)]
pub enum DownstreamTransform {
    /// The footprint cached for this node, the layer's own.
    Footprint(NodeId),
    /// The transform of the layer to the viewport: footprint and transform
    /// cached for the node, or the document's transform where there is none.
    Upstream(Option<NodeId>),
}

/// The key of the first layer of `path` for which a transform is cached.
pub open spec fn first_cached(path: Seq<LayerNodeIdentifier>, cached: Set<NodeId>) -> Option<NodeId>
    decreases path.len(),
{
    if path.len() == 0 {
        None
    } else if cached.contains(path[0].0) {
        Some(path[0].0)
    } else {
        first_cached(path.drop_first(), cached)
    }
}

impl DocumentMetadata {
    /// Takes over the set of nodes for which transforms are cached.
    pub fn update_transforms(&mut self, new_upstream_transforms: Vec<NodeId>)
        ensures
            final(self).same_tree(old(self)),
            final(self).spec_upstream_transforms() == new_upstream_transforms@.to_set(),
            final(self).spec_artboards() == old(self).spec_artboards(),
            final(self).spec_artboard_list() == old(self).spec_artboard_list(),
            final(self).spec_folders() == old(self).spec_folders(),
            final(self).spec_click_targets() == old(self).spec_click_targets(),
            final(self).spec_selected_nodes() == old(self).spec_selected_nodes(),
    {
        self.replace_upstream_transforms(new_upstream_transforms);
    }

    /// Takes over the set of layers for which click targets are cached.
    pub fn update_click_targets(&mut self, new_click_targets: Vec<LayerNodeIdentifier>)
        ensures
            final(self).same_tree(old(self)),
            final(self).spec_click_targets() == new_click_targets@.to_set(),
            final(self).spec_artboards() == old(self).spec_artboards(),
            final(self).spec_artboard_list() == old(self).spec_artboard_list(),
            final(self).spec_folders() == old(self).spec_folders(),
            final(self).spec_upstream_transforms() == old(self).spec_upstream_transforms(),
            final(self).spec_selected_nodes() == old(self).spec_selected_nodes(),
    {
        let mut keys: Vec<NodeId> = Vec::new();
        let mut i: usize = 0;
        while i < new_click_targets.len()
            invariant
                0 <= i <= new_click_targets.len(),
                keys.len() == i,
                forall|j: int| 0 <= j < i ==> keys@[j] == (#[trigger] new_click_targets@[j]).0,
            decreases new_click_targets.len() - i,
        {
            keys.push(new_click_targets[i].to_node());
            i += 1;
        }
        self.replace_click_targets(keys);
        proof {
            assert forall|x: LayerNodeIdentifier|
                keys@.contains(x.0) <==> #[trigger] new_click_targets@.to_set().contains(x) by {
                if keys@.contains(x.0) {
                    let j = choose|j: int| 0 <= j < keys@.len() && keys@[j] == x.0;
                    assert(new_click_targets@[j] == x);
                }
                if new_click_targets@.contains(x) {
                    let j = choose|j: int|
                        0 <= j < new_click_targets@.len() && new_click_targets@[j] == x;
                    assert(keys@[j] == x.0);
                }
            }
            assert(self.spec_click_targets() =~= new_click_targets@.to_set());
        }
    }

    /// Whether click targets are cached for `layer`.
    pub fn click_target(&self, layer: LayerNodeIdentifier) -> (cached: bool)
        ensures
            cached == self.spec_click_targets().contains(layer),
    {
        self.has_click_targets(layer)
    }

    /// The node whose cached footprint and transform make the transform of
    /// `layer` to the viewport: the nearest of the layer and its ancestors for
    /// which a transform is cached. `None` where there is no such layer, and
    /// the document's own transform applies.
    pub fn transform_to_viewport(&self, layer: LayerNodeIdentifier) -> (source: Option<NodeId>)
        requires
            self.wf(),
        ensures
            source == first_cached(self.spec_ancestors(layer), self.spec_upstream_transforms()),
    {
        let ghost all = self.spec_ancestors(layer);
        let ghost cached = self.spec_upstream_transforms();
        let mut walk = layer.ancestors(self);
        loop
            invariant
                walk.document() == self,
                self.wf(),
                all == self.spec_ancestors(layer),
                cached == self.spec_upstream_transforms(),
                first_cached(all, cached) == first_cached(walk.remaining(), cached),
            decreases walk.remaining().len(),
        {
            let ghost rest = walk.remaining();
            match walk.next() {
                Some(ancestor) => {
                    proof {
                        assert(rest[0] == ancestor);
                        assert(rest.drop_first() =~= walk.remaining());
                    }
                    if self.has_upstream_transform(ancestor.to_node()) {
                        return Some(ancestor.to_node());
                    }
                },
                None => {
                    return None;
                },
            }
        }
    }

    /// The node whose cached transform is the node's own, or `None` where no
    /// transform is cached for `node_id` and the identity applies.
    pub fn upstream_transform(&self, node_id: NodeId) -> (source: Option<NodeId>)
        ensures
            source == (if self.spec_upstream_transforms().contains(node_id) {
                Some(node_id)
            } else {
                None
            }),
    {
        if self.has_upstream_transform(node_id) {
            Some(node_id)
        } else {
            None
        }
    }

    /// Where the transform that `layer` hands down to the viewport comes from:
    /// the footprint cached for the layer's own node or, where there is none,
    /// the transform of the layer to the viewport.
    pub fn downstream_transform_to_viewport(&self, layer: LayerNodeIdentifier) -> (source:
        DownstreamTransform)
        requires
            self.wf(),
        ensures
            source == (if self.spec_upstream_transforms().contains(layer.0) {
                DownstreamTransform::Footprint(layer.0)
            } else {
                DownstreamTransform::Upstream(
                    first_cached(self.spec_ancestors(layer), self.spec_upstream_transforms()),
                )
            }),
    {
        if self.has_upstream_transform(layer.to_node()) {
            DownstreamTransform::Footprint(layer.to_node())
        } else {
            DownstreamTransform::Upstream(self.transform_to_viewport(layer))
        }
    }
}

} // verus!
