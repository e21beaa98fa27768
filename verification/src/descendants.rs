//! The walk through everything below a layer. It can be read from the front
//! and from the back: the two cursors come towards each other and the walk
//! ends where they meet.

use vstd::prelude::*;
use crate::identifier::LayerNodeIdentifier;
use crate::metadata::DocumentMetadata;
use crate::model::{
    rel, root_id, place_ok, parent_ok, children_ok, next_ok,
    previous_ok, lemma_next_is_sibling, lemma_first_is_child,
};
use crate::preorder::{next_after, preorder_next, preorder_previous, lemma_next_after};

verus! {

/// The layer listed at the end of the interval of `layer`: the last child of
/// its last child, and so on.
pub(crate) fn deepest_last_child(
    layer: LayerNodeIdentifier,
    document_metadata: &DocumentMetadata,
) -> (last: LayerNodeIdentifier)
    requires
        document_metadata.wf(),
        document_metadata@.contains_key(layer),
    ensures
        document_metadata@.contains_key(last),
        last == document_metadata.listing().order[document_metadata.listing().e(layer)],
        document_metadata.listing().i(last) == document_metadata.listing().e(layer),
        document_metadata.spec_last_children(layer).last() == last,
{
    let ghost l = document_metadata@;
    let ghost t = document_metadata.listing();
    let mut current = layer;
    let mut walk = layer.last_children(document_metadata);
    let first = walk.next();
    assert(first == Some(layer));
    loop
        invariant
            document_metadata.wf(),
            l == document_metadata@,
            t == document_metadata.listing(),
            l.contains_key(current),
            t.e(current) == t.e(layer),
            walk.document() == document_metadata,
            walk.axis() == crate::walk::Axis::LastChildren,
            walk.cursor() == l[current].last_child,
            document_metadata.spec_last_children(layer).last() == (seq![current]
                + walk.remaining()).last(),
        ensures
            l.contains_key(current),
            t.e(current) == t.e(layer),
            t.size[current] == 0,
            document_metadata.spec_last_children(layer).last() == current,
        decreases t.order.len() - t.i(current),
    {
        proof {
            assert(place_ok(l, t, current));
            assert(children_ok(l, t, current));
        }
        let ghost before = walk;
        match walk.next() {
            Some(child) => {
                proof {
                    assert(place_ok(l, t, child));
                    assert(parent_ok(l, t, child));
                    assert((seq![current] + before.remaining()).last() == (seq![child]
                        + walk.remaining()).last()) by {
                        assert(before.remaining() == seq![child] + walk.remaining());
                    }
                }
                current = child;
            },
            None => {
                assert(seq![current] + walk.remaining() =~= seq![current]);
                break ;
            },
        }
    }
    proof {
        assert(place_ok(l, t, current));
    }
    current
}

/// The next sibling of the nearest of `layer` and its ancestors that has one:
/// the layer listed right after the interval of `layer`.
pub(crate) fn climb_to_next(layer: LayerNodeIdentifier, document_metadata: &DocumentMetadata) -> (next:
    Option<LayerNodeIdentifier>)
    requires
        document_metadata.wf(),
        document_metadata@.contains_key(layer),
    ensures
        next == next_after(document_metadata@, document_metadata.listing(), layer),
        ({
            let t = document_metadata.listing();
            next == (if t.e(layer) + 1 < t.order.len() {
                Some(t.order[t.e(layer) + 1])
            } else {
                None
            })
        }),
{
    let ghost l = document_metadata@;
    let ghost t = document_metadata.listing();
    let mut current = layer;
    proof {
        lemma_next_after(l, t, layer);
    }
    loop
        invariant
            document_metadata.wf(),
            l == document_metadata@,
            t == document_metadata.listing(),
            l.contains_key(current),
            t.e(current) == t.e(layer),
            next_after(l, t, layer) == (if t.e(layer) + 1 < t.order.len() {
                Some(t.order[t.e(layer) + 1])
            } else {
                None
            }),
        decreases t.i(current),
    {
        proof {
            assert(place_ok(l, t, current));
            assert(parent_ok(l, t, current));
            assert(next_ok(l, t, current));
            assert(place_ok(l, t, root_id()));
            if current != root_id() && l[current].next_sibling is Some {
                lemma_next_is_sibling(l, t, current);
                assert(place_ok(l, t, l[current].next_sibling.unwrap()));
            }
        }
        if let Some(sibling) = current.next_sibling(document_metadata) {
            return Some(sibling);
        }
        match current.parent(document_metadata) {
            Some(parent) => {
                proof {
                    assert(place_ok(l, t, parent));
                }
                current = parent;
            },
            None => {
                return None;
            },
        }
    }
}

/// A walk through everything below a layer, in pre-order from the front and
/// in the reverse of it from the back.
pub struct DecendantsIter<'a> {
    front: Option<LayerNodeIdentifier>,
    back: Option<LayerNodeIdentifier>,
    document_metadata: &'a DocumentMetadata,
}

impl<'a> DecendantsIter<'a> {
    /// The layer that the walk hands out next from the front.
    pub closed spec fn front(&self) -> Option<LayerNodeIdentifier> {
        self.front
    }

    /// The layer that the walk hands out next from the back.
    pub closed spec fn back(&self) -> Option<LayerNodeIdentifier> {
        self.back
    }

    /// The document that the walk goes through.
    pub closed spec fn document(&self) -> &DocumentMetadata {
        self.document_metadata
    }

    /// The document is a tree, and the cursors are both gone or stand in it with
    /// the front one not behind the back one.
    pub open spec fn wf(&self) -> bool {
        &&& self.document().wf()
        &&& match (self.front(), self.back()) {
            (None, None) => true,
            (Some(f), Some(b)) => {
                &&& self.document()@.contains_key(f)
                &&& self.document()@.contains_key(b)
                &&& self.document().listing().i(f) <= self.document().listing().i(b)
            },
            _ => false,
        }
    }

    /// The layers that the walk has yet to hand out, front to back.
    pub open spec fn remaining(&self) -> Seq<LayerNodeIdentifier> {
        match (self.front(), self.back()) {
            (Some(f), Some(b)) => self.document().listing().order.subrange(
                self.document().listing().i(f),
                self.document().listing().i(b) + 1,
            ),
            _ => Seq::empty(),
        }
    }

    /// Hands out the layer at the front and moves the front cursor to the layer
    /// that follows it in pre-order: its first child or, where it has none, the
    /// next sibling of the nearest ancestor that has one. Where the cursors
    /// have met, the layer they stand on is the last one.
    pub fn next(&mut self) -> (item: Option<LayerNodeIdentifier>)
        requires
            old(self).wf(),
        ensures
            final(self).wf(),
            final(self).document() == old(self).document(),
            item == old(self).front(),
            final(self).front() == (if old(self).front() == old(self).back() {
                None
            } else {
                preorder_next(
                    old(self).document()@,
                    old(self).document().listing(),
                    old(self).front().unwrap(),
                )
            }),
            final(self).back() == (if old(self).front() == old(self).back() {
                None
            } else {
                old(self).back()
            }),
            match item {
                Some(x) => old(self).remaining() == seq![x] + final(self).remaining(),
                None => old(self).remaining().len() == 0 && final(self).remaining().len() == 0,
            },
    {
        let ghost l = self.document_metadata@;
        let ghost t = self.document_metadata.listing();
        if self.front == self.back {
            self.back = None;
            let item = self.front;
            self.front = None;
            proof {
                if item is Some {
                    assert(place_ok(l, t, item.unwrap()));
                    assert(old(self).remaining() =~= seq![item.unwrap()]);
                    assert(seq![item.unwrap()] + self.remaining() =~= seq![item.unwrap()]);
                }
            }
            item
        } else {
            let layer_node = self.front;
            self.front = None;
            if let Some(layer_node) = layer_node {
                proof {
                    let b = self.back.unwrap();
                    assert(place_ok(l, t, layer_node));
                    assert(place_ok(l, t, b));
                    assert(children_ok(l, t, layer_node));
                    if t.size[layer_node] > 0 {
                        lemma_first_is_child(l, t, layer_node);
                    }
                }
                self.front = match layer_node.first_child(self.document_metadata) {
                    Some(child) => Some(child),
                    None => climb_to_next(layer_node, self.document_metadata),
                };
                proof {
                    let f = self.front.unwrap();
                    assert(l.contains_key(t.order[t.i(layer_node) + 1]));
                    assert(old(self).remaining() =~= seq![layer_node] + self.remaining());
                }
            }
            layer_node
        }
    }

    /// Hands out the layer at the back and moves the back cursor to the layer
    /// before it in pre-order: the deepest last descendant of its previous
    /// sibling or, where it has none, its parent. Where the cursors have met,
    /// the layer they stand on is the last one.
    pub fn next_back(&mut self) -> (item: Option<LayerNodeIdentifier>)
        requires
            old(self).wf(),
        ensures
            final(self).wf(),
            final(self).document() == old(self).document(),
            item == old(self).back(),
            final(self).back() == (if old(self).front() == old(self).back() {
                None
            } else {
                preorder_previous(
                    old(self).document()@,
                    old(self).document().listing(),
                    old(self).back().unwrap(),
                )
            }),
            final(self).front() == (if old(self).front() == old(self).back() {
                None
            } else {
                old(self).front()
            }),
            match item {
                Some(x) => old(self).remaining() == final(self).remaining() + seq![x],
                None => old(self).remaining().len() == 0 && final(self).remaining().len() == 0,
            },
    {
        let ghost l = self.document_metadata@;
        let ghost t = self.document_metadata.listing();
        if self.front == self.back {
            self.front = None;
            let item = self.back;
            self.back = None;
            proof {
                if item is Some {
                    assert(place_ok(l, t, item.unwrap()));
                    assert(old(self).remaining() =~= seq![item.unwrap()]);
                    assert(self.remaining() + seq![item.unwrap()] =~= seq![item.unwrap()]);
                }
            }
            item
        } else {
            let layer_node = self.back;
            self.back = None;
            if let Some(layer_node) = layer_node {
                proof {
                    let f = self.front.unwrap();
                    assert(place_ok(l, t, layer_node));
                    assert(place_ok(l, t, f));
                    assert(place_ok(l, t, root_id()));
                    assert(parent_ok(l, t, layer_node));
                    assert(previous_ok(l, t, layer_node));
                }
                self.back = match layer_node.previous_sibling(self.document_metadata) {
                    Some(sibling) => Some(deepest_last_child(sibling, self.document_metadata)),
                    None => layer_node.parent(self.document_metadata),
                };
                proof {
                    assert(old(self).remaining() =~= self.remaining() + seq![layer_node]);
                }
            }
            layer_node
        }
    }

    /// All the layers that the walk has yet to hand out, front to back.
    pub fn collect(self) -> (items: Vec<LayerNodeIdentifier>)
        requires
            self.wf(),
        ensures
            items@ == self.remaining(),
    {
        let mut walk = self;
        let mut items: Vec<LayerNodeIdentifier> = Vec::new();
        loop
            invariant
                walk.wf(),
                items@ + walk.remaining() == self.remaining(),
            ensures
                items@ == self.remaining(),
            decreases walk.remaining().len(),
        {
            let ghost before = walk.remaining();
            let ghost taken = items@;
            match walk.next() {
                Some(layer) => {
                    items.push(layer);
                    proof {
                        assert(items@ =~= taken + seq![layer]);
                        assert(items@ + walk.remaining() =~= taken + before);
                    }
                },
                None => {
                    assert(items@ + walk.remaining() =~= items@);
                    break ;
                },
            }
        }
        items
    }

    /// All the layers that the walk has yet to hand out, back to front.
    pub fn collect_reversed(self) -> (items: Vec<LayerNodeIdentifier>)
        requires
            self.wf(),
        ensures
            items@ == self.remaining().reverse(),
    {
        let mut walk = self;
        let mut items: Vec<LayerNodeIdentifier> = Vec::new();
        loop
            invariant
                walk.wf(),
                walk.remaining() + items@.reverse() == self.remaining(),
            ensures
                items@.reverse() == self.remaining(),
            decreases walk.remaining().len(),
        {
            let ghost before = walk.remaining();
            let ghost taken = items@;
            match walk.next_back() {
                Some(layer) => {
                    items.push(layer);
                    proof {
                        assert(items@ =~= taken + seq![layer]);
                        assert(items@.reverse() =~= seq![layer] + taken.reverse());
                        assert(walk.remaining() + items@.reverse() =~= before + taken.reverse());
                    }
                },
                None => {
                    assert(walk.remaining() + items@.reverse() =~= items@.reverse());
                    break ;
                },
            }
        }
        proof {
            assert(items@ =~= items@.reverse().reverse());
        }
        items
    }
}

impl LayerNodeIdentifier {
    /// A walk through everything below this layer.
    pub fn decendants<'a>(self, document_metadata: &'a DocumentMetadata) -> (walk: DecendantsIter<
        'a,
    >)
        requires
            document_metadata.wf(),
        ensures
            walk.wf(),
            walk.document() == document_metadata,
            walk.remaining() == document_metadata.spec_descendants(self),
            walk.front() == rel(document_metadata@, self).first_child,
            walk.back() == (match rel(document_metadata@, self).last_child {
                Some(child) => Some(document_metadata.spec_last_children(child).last()),
                None => None,
            }),
    {
        let ghost l = document_metadata@;
        let ghost t = document_metadata.listing();
        proof {
            if l.contains_key(self) {
                assert(place_ok(l, t, self));
                assert(children_ok(l, t, self));
                if t.size[self] > 0 {
                    lemma_first_is_child(l, t, self);
                    assert(place_ok(l, t, l[self].last_child.unwrap()));
                }
            }
        }
        let front = self.first_child(document_metadata);
        let back = match self.last_child(document_metadata) {
            Some(child) => Some(deepest_last_child(child, document_metadata)),
            None => None,
        };
        let walk = DecendantsIter { front, back, document_metadata };
        proof {
            assert(walk.remaining() =~= document_metadata.spec_descendants(self));
        }
        walk
    }
}

} // verus!
