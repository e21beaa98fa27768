//! Walks through the tree: along one kind of link, and through all the
//! descendants of a layer from both ends.

use vstd::prelude::*;
use crate::identifier::LayerNodeIdentifier;
use crate::metadata::DocumentMetadata;
use crate::model::{
    Links, Preorder, rel, root_id, tree_inv, place_ok, parent_ok, children_ok, next_ok,
    previous_ok, lemma_next_is_sibling, };

verus! {

/// The link that a walk follows.
#[derive(Clone, Copy, PartialEq, Eq, Debug, Structural)]
pub enum Axis {
    /// From a layer to its parent.
    Ancestors,
    /// From a layer to its next sibling.
    NextSiblings,
    /// From a layer to its previous sibling.
    PreviousSiblings,
    /// From a layer to its last child.
    LastChildren,
}

/// The layer that follows `x` along `axis`.
pub open spec fn axis_step(l: Links, axis: Axis, x: LayerNodeIdentifier) -> Option<
    LayerNodeIdentifier,
> {
    match axis {
        Axis::Ancestors => rel(l, x).parent,
        Axis::NextSiblings => rel(l, x).next_sibling,
        Axis::PreviousSiblings => rel(l, x).previous_sibling,
        Axis::LastChildren => rel(l, x).last_child,
    }
}

/// A number that gets smaller with every step along `axis` in a tree.
pub open spec fn axis_rank(t: Preorder, axis: Axis, x: LayerNodeIdentifier) -> int {
    match axis {
        Axis::Ancestors => t.i(x),
        Axis::PreviousSiblings => t.i(x),
        _ => t.order.len() - t.i(x),
    }
}

pub open spec fn chain_fuel(t: Preorder, axis: Axis, cursor: Option<LayerNodeIdentifier>) -> nat {
    match cursor {
        Some(x) => if axis_rank(t, axis, x) >= 0 {
            (axis_rank(t, axis, x) + 1) as nat
        } else {
            0
        },
        None => 0,
    }
}

/// The layers that a walk along `axis` visits, from `cursor` on.
pub open spec fn chain(l: Links, t: Preorder, axis: Axis, cursor: Option<LayerNodeIdentifier>) -> Seq<
    LayerNodeIdentifier,
>
    decreases chain_fuel(t, axis, cursor),
{
    match cursor {
        None => Seq::empty(),
        Some(x) => {
            let next = axis_step(l, axis, x);
            if next is Some && 0 <= axis_rank(t, axis, next.unwrap()) < axis_rank(t, axis, x) {
                seq![x] + chain(l, t, axis, next)
            } else {
                seq![x]
            }
        },
    }
}

/// The children of `p`, first to last.
pub open spec fn children_of(l: Links, t: Preorder, p: LayerNodeIdentifier) -> Seq<
    LayerNodeIdentifier,
> {
    chain(l, t, Axis::NextSiblings, rel(l, p).first_child)
}

/// The layers below `x`, parents before their children and siblings in the
/// order of the child list.
pub open spec fn descendants(l: Links, t: Preorder, x: LayerNodeIdentifier) -> Seq<
    LayerNodeIdentifier,
> {
    if l.contains_key(x) {
        t.order.subrange(t.i(x) + 1, t.e(x) + 1)
    } else {
        Seq::empty()
    }
}

/// In a tree a walk goes on for as long as there is a link to follow.
pub proof fn lemma_chain_unfold(l: Links, t: Preorder, axis: Axis, x: LayerNodeIdentifier)
    requires
        tree_inv(l, t),
    ensures
        chain(l, t, axis, Some(x)) == seq![x] + chain(l, t, axis, axis_step(l, axis, x)),
        axis_step(l, axis, x) matches Some(y) ==> l.contains_key(x) && l.contains_key(y)
            && 0 <= axis_rank(t, axis, y) < axis_rank(t, axis, x),
{
    if l.contains_key(x) {
        assert(place_ok(l, t, x));
        assert(parent_ok(l, t, x));
        assert(next_ok(l, t, x));
        assert(previous_ok(l, t, x));
        assert(children_ok(l, t, x));
        match axis {
            Axis::PreviousSiblings => {
                if x != root_id() && l[x].previous_sibling is Some {
                    assert(place_ok(l, t, l[x].previous_sibling.unwrap()));
                }
            },
            Axis::Ancestors => {
                if x != root_id() {
                    assert(place_ok(l, t, l[x].parent.unwrap()));
                }
            },
            Axis::NextSiblings => {
                if x != root_id() && l[x].next_sibling is Some {
                    lemma_next_is_sibling(l, t, x);
                    assert(place_ok(l, t, l[x].next_sibling.unwrap()));
                }
            },
            Axis::LastChildren => {
                if t.size[x] > 0 {
                    let y = l[x].last_child.unwrap();
                    assert(place_ok(l, t, y));
                    assert(parent_ok(l, t, y));
                }
            },
        }
    }
    assert(chain(l, t, axis, None) == Seq::<LayerNodeIdentifier>::empty());
    assert(seq![x] + Seq::<LayerNodeIdentifier>::empty() =~= seq![x]);
}

impl DocumentMetadata {
    /// The layer and its ancestors, from the layer up to the root.
    pub open spec fn spec_ancestors(&self, layer: LayerNodeIdentifier) -> Seq<LayerNodeIdentifier> {
        chain(self@, self.listing(), Axis::Ancestors, Some(layer))
    }

    /// The children of the layer, first to last.
    pub open spec fn spec_children(&self, layer: LayerNodeIdentifier) -> Seq<LayerNodeIdentifier> {
        children_of(self@, self.listing(), layer)
    }

    /// The child lists are those of `before`, with `new` put into place `at` of
    /// the child list of `parent`.
    pub open spec fn child_put_at(
        &self,
        before: &DocumentMetadata,
        parent: LayerNodeIdentifier,
        new: LayerNodeIdentifier,
        at: int,
    ) -> bool {
        crate::children::child_put(
            before@,
            before.listing(),
            self@,
            self.listing(),
            parent,
            new,
            at,
        )
    }

    /// The child lists are those of `before`, with the child at place `at`
    /// taken out of the child list of `parent`.
    pub open spec fn child_taken_at(
        &self,
        before: &DocumentMetadata,
        parent: LayerNodeIdentifier,
        at: int,
    ) -> bool {
        crate::children::child_taken(before@, before.listing(), self@, self.listing(), parent, at)
    }

    /// The children of the layer, last to first, as the previous-sibling links
    /// give them.
    pub open spec fn spec_children_backward(&self, layer: LayerNodeIdentifier) -> Seq<
        LayerNodeIdentifier,
    > {
        chain(self@, self.listing(), Axis::PreviousSiblings, rel(self@, layer).last_child)
    }

    /// The layer, its last child, the last child of that, and so on.
    pub open spec fn spec_last_children(&self, layer: LayerNodeIdentifier) -> Seq<
        LayerNodeIdentifier,
    > {
        chain(self@, self.listing(), Axis::LastChildren, Some(layer))
    }

    /// Everything below the layer, in pre-order.
    pub open spec fn spec_descendants(&self, layer: LayerNodeIdentifier) -> Seq<
        LayerNodeIdentifier,
    > {
        descendants(self@, self.listing(), layer)
    }
}

/// A walk along one kind of link. It starts at a given layer and ends where
/// the link is missing.
pub struct AxisIter<'a> {
    layer_node: Option<LayerNodeIdentifier>,
    axis: Axis,
    document_metadata: &'a DocumentMetadata,
}

impl<'a> AxisIter<'a> {
    /// The layer that the walk hands out next.
    pub closed spec fn cursor(&self) -> Option<LayerNodeIdentifier> {
        self.layer_node
    }

    /// The link that the walk follows.
    pub closed spec fn axis(&self) -> Axis {
        self.axis
    }

    /// The document that the walk goes through.
    pub closed spec fn document(&self) -> &DocumentMetadata {
        self.document_metadata
    }

    /// The layers that the walk has yet to hand out.
    pub open spec fn remaining(&self) -> Seq<LayerNodeIdentifier> {
        chain(self.document()@, self.document().listing(), self.axis(), self.cursor())
    }

    /// A walk along `axis` that starts at `start`.
    pub fn new(
        start: Option<LayerNodeIdentifier>,
        axis: Axis,
        document_metadata: &'a DocumentMetadata,
    ) -> (walk: Self)
        ensures
            walk.cursor() == start,
            walk.axis() == axis,
            walk.document() == document_metadata,
    {
        AxisIter { layer_node: start, axis, document_metadata }
    }

    /// Hands out the layer under the cursor and moves the cursor one link on.
    pub fn next(&mut self) -> (item: Option<LayerNodeIdentifier>)
        ensures
            item == old(self).cursor(),
            final(self).axis() == old(self).axis(),
            final(self).document() == old(self).document(),
            final(self).cursor() == match old(self).cursor() {
                Some(x) => axis_step(old(self).document()@, old(self).axis(), x),
                None => None,
            },
            old(self).document().wf() ==> match item {
                Some(x) => old(self).remaining() == seq![x] + final(self).remaining(),
                None => old(self).remaining().len() == 0 && final(self).remaining().len() == 0,
            },
    {
        let layer_node = self.layer_node;
        self.layer_node = match layer_node {
            Some(node) => match self.axis {
                Axis::Ancestors => node.parent(self.document_metadata),
                Axis::NextSiblings => node.next_sibling(self.document_metadata),
                Axis::PreviousSiblings => node.previous_sibling(self.document_metadata),
                Axis::LastChildren => node.last_child(self.document_metadata),
            },
            None => None,
        };
        proof {
            if self.document_metadata.wf() && layer_node is Some {
                lemma_chain_unfold(
                    self.document_metadata@,
                    self.document_metadata.listing(),
                    self.axis,
                    layer_node.unwrap(),
                );
            }
        }
        layer_node
    }

    /// All the layers that the walk has yet to hand out, in its order.
    pub fn collect(self) -> (items: Vec<LayerNodeIdentifier>)
        requires
            self.document().wf(),
        ensures
            items@ == self.remaining(),
    {
        let mut walk = self;
        let mut items: Vec<LayerNodeIdentifier> = Vec::new();
        loop
            invariant
                walk.document().wf(),
                walk.document() == self.document(),
                walk.axis() == self.axis(),
                items@ + walk.remaining() == self.remaining(),
            ensures
                items@ == self.remaining(),
            decreases walk.remaining().len(),
        {
            let ghost before = walk;
            let ghost taken = items@;
            match walk.next() {
                Some(layer) => {
                    items.push(layer);
                    proof {
                        lemma_chain_unfold(
                            before.document()@,
                            before.document().listing(),
                            before.axis(),
                            layer,
                        );
                        assert(items@ =~= taken + seq![layer]);
                        assert(items@ + walk.remaining() =~= taken + before.remaining());
                    }
                },
                None => {
                    assert(items@ + walk.remaining() =~= items@);
                    break ;
                },
            }
        }
        items
    }
}

impl LayerNodeIdentifier {
    /// A walk over the children of this layer, first to last.
    pub fn children<'a>(self, document_metadata: &'a DocumentMetadata) -> (walk: AxisIter<'a>)
        ensures
            walk.document() == document_metadata,
            walk.axis() == Axis::NextSiblings,
            walk.cursor() == rel(document_metadata@, self).first_child,
            walk.remaining() == document_metadata.spec_children(self),
    {
        AxisIter::new(self.first_child(document_metadata), Axis::NextSiblings, document_metadata)
    }

    /// A walk from this layer up to the root.
    pub fn ancestors<'a>(self, document_metadata: &'a DocumentMetadata) -> (walk: AxisIter<'a>)
        ensures
            walk.document() == document_metadata,
            walk.axis() == Axis::Ancestors,
            walk.cursor() == Some(self),
            walk.remaining() == document_metadata.spec_ancestors(self),
    {
        AxisIter::new(Some(self), Axis::Ancestors, document_metadata)
    }

    /// A walk from this layer down through the last children.
    pub fn last_children<'a>(self, document_metadata: &'a DocumentMetadata) -> (walk: AxisIter<
        'a,
    >)
        ensures
            walk.document() == document_metadata,
            walk.axis() == Axis::LastChildren,
            walk.cursor() == Some(self),
            walk.remaining() == document_metadata.spec_last_children(self),
    {
        AxisIter::new(Some(self), Axis::LastChildren, document_metadata)
    }
}

} // verus!
